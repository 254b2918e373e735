use boundrs::dataset::{label_has_class, Dataset, DatasetError, DatasetMovement};
use boundrs::label::Card;
use boundrs::yolo::YoloBB;

fn paths(names: &[&str]) -> Vec<String> {
    names.iter().map(|n| n.to_string()).collect()
}

fn dataset(n: usize) -> Dataset<Card> {
    let names: Vec<String> = (0..n).map(|i| format!("input/img{}.jpg", i)).collect();
    Dataset::from_image_paths(names, "input").unwrap()
}

fn bb(class_num: usize) -> YoloBB<Card> {
    YoloBB::new(class_num, "0.5".into(), "0.5".into(), "1".into(), "1".into())
}

#[test]
fn images_sorted_in_natural_order() {
    let d: Dataset<Card> = Dataset::from_image_paths(
        paths(&["input/img10.jpg", "input/img2.jpg", "input/img1.jpg"]),
        "input",
    )
    .unwrap();
    assert_eq!(d.current_image(), "input/img1.jpg");
    assert_eq!(d.current_name(), "img1.jpg");
    assert_eq!(d.label_path(0), "input/img1.txt");
    assert_eq!(d.label_path(1), "input/img2.txt");
    assert_eq!(d.label_path(2), "input/img10.txt");
    assert_eq!(d.get_progress(), (0, 0, 3));
}

#[test]
fn no_images_is_an_error() {
    let r: Result<Dataset<Card>, DatasetError> = Dataset::from_image_paths(vec![], "input");
    assert_eq!(r.err(), Some(DatasetError::NoImages));
}

#[test]
fn label_paths_follow_the_stem() {
    let d: Dataset<Card> = Dataset::from_image_paths(
        paths(&["./input/a.b.jpg", "c.jpg", "x/.hidden"]),
        "labels/",
    )
    .unwrap();
    let all: Vec<String> = (0..3).map(|k| d.label_path(k).to_string()).collect();
    assert!(all.contains(&"labels/a.b.txt".to_string()));
    assert!(all.contains(&"labels/c.txt".to_string()));
    assert!(all.contains(&"labels/.hidden.txt".to_string()));
}

#[test]
fn label_prefix_keeps_images_and_cursor() {
    let mut d = dataset(3);
    d.resume_at_first_unlabeled(&vec![true, false, false]);
    let n = d.with_label_prefix("new_");
    assert_eq!(n.label_path(0), "input/new_img0.txt");
    assert_eq!(n.current_label(), "input/new_img1.txt");
    assert_eq!(n.current_image(), "input/img1.jpg");
    assert_eq!(n.get_progress(), (0, 1, 3));
}

#[test]
fn resume_at_first_unlabeled() {
    let mut d = dataset(4);
    d.resume_at_first_unlabeled(&vec![true, true, false, false]);
    assert_eq!(d.get_progress().1, 2);
    d.resume_at_first_unlabeled(&vec![true, true, true, true]);
    assert_eq!(d.get_progress().1, 0);
    d.resume_at_first_unlabeled(&vec![false, true, true, true]);
    assert_eq!(d.get_progress().1, 0);
}

#[test]
fn next_stops_at_last_image() {
    let mut d = dataset(3);
    for _ in 0..10 {
        assert_eq!(d.after_save(&DatasetMovement::Next), None);
        assert!(d.get_progress().1 <= 2);
    }
    assert_eq!(d.get_progress().1, 2);
}

#[test]
fn previous_stops_at_first_image() {
    let mut d = dataset(3);
    d.resume_at_first_unlabeled(&vec![true, true, false]);
    for _ in 0..10 {
        assert_eq!(d.after_save(&DatasetMovement::Previous), None);
    }
    assert_eq!(d.get_progress().1, 0);
}

#[test]
fn previous_label_at_first_image_is_its_own() {
    let d = dataset(3);
    assert_eq!(d.previous_label(), "input/img0.txt");
    let mut d = dataset(3);
    d.after_save(&DatasetMovement::Next);
    assert_eq!(d.previous_label(), "input/img0.txt");
    assert_eq!(d.current_label(), "input/img1.txt");
}

#[test]
fn next_containing_stops_at_match() {
    let labels = vec![vec![bb(1)], vec![bb(2)], vec![bb(3), bb(7)], vec![bb(7)]];
    let mut d = dataset(4);
    let m = DatasetMovement::NextContaining(vec![Card::V7]);
    let mut step = d.after_save(&m);
    let mut visited = vec![];
    while let Some(k) = step {
        visited.push(k);
        step = d.after_load(&m, &labels[k]);
    }
    assert_eq!(visited, vec![1, 2]);
    assert_eq!(d.get_progress().1, 2);
}

#[test]
fn next_containing_without_match_ends_at_last() {
    let labels = vec![vec![bb(1)], vec![], vec![bb(2)], vec![bb(3)]];
    let mut d = dataset(4);
    let m = DatasetMovement::NextContaining(vec![Card::A]);
    let mut step = d.after_save(&m);
    let mut steps = 0;
    while let Some(k) = step {
        steps += 1;
        step = d.after_load(&m, &labels[k]);
    }
    assert_eq!(steps, 3);
    assert_eq!(d.get_progress().1, 3);
}

#[test]
fn previous_containing_without_match_ends_at_first() {
    let labels = vec![vec![bb(1)], vec![], vec![bb(2)], vec![bb(3)]];
    let mut d = dataset(4);
    d.resume_at_first_unlabeled(&vec![true, true, true, false]);
    let m = DatasetMovement::PreviousContaining(vec![Card::A]);
    let mut step = d.after_save(&m);
    while let Some(k) = step {
        step = d.after_load(&m, &labels[k]);
    }
    assert_eq!(d.get_progress().1, 0);
}

#[test]
fn scan_at_boundary_does_not_move() {
    let mut d = dataset(2);
    d.after_save(&DatasetMovement::Next);
    assert_eq!(d.after_save(&DatasetMovement::NextContaining(vec![Card::A])), None);
    assert_eq!(d.get_progress().1, 1);
}

#[test]
fn class_membership() {
    let label = vec![bb(0), bb(5)];
    assert!(label_has_class(&label, &vec![Card::V9]));
    assert!(!label_has_class(&label, &vec![Card::V2, Card::K]));
    assert!(!label_has_class(&vec![], &vec![Card::A]));
}

#[test]
fn save_before_moving() {
    let mut d = dataset(2);
    let (path, text) = d.save_label(&vec![bb(0)]);
    assert_eq!(path, "input/img0.txt");
    assert_eq!(text, "0 0.5 0.5 1 1\n");
    d.after_save(&DatasetMovement::Next);
    assert_eq!(d.get_progress().1, 1);
}

#[test]
fn annotate_first_image_and_move_on() {
    let mut d: Dataset<Card> = Dataset::from_image_paths(paths(&["a.jpg", "b.jpg"]), "").unwrap();
    assert_eq!(d.current_label(), "a.txt");
    let empty = boundrs::yolo::parse_label::<Card>("").unwrap();
    assert!(empty.is_empty());
    let full_frame = YoloBB::new(0, "0.5".into(), "0.5".into(), "1".into(), "1".into());
    let (path, text) = d.save_label(&vec![full_frame]);
    assert_eq!(path, "a.txt");
    assert_eq!(text, "0 0.5 0.5 1 1\n");
    assert_eq!(d.after_save(&DatasetMovement::Next), None);
    assert_eq!(d.current_image(), "b.jpg");
}

#[test]
fn datapoint_paths() {
    let d = boundrs::dataset::Datapoint::<Card>::new("input/img3.jpg".to_string(), "labels");
    assert_eq!(d.name(), "img3.jpg");
    assert_eq!(d.load_image(), "input/img3.jpg");
}

#[test]
fn sorted_paths_keep_their_order() {
    let d: Dataset<Card> =
        Dataset::from_sorted_paths(paths(&["b/z.jpg", "a/y.jpg"]), "out").unwrap();
    assert_eq!(d.current_image(), "b/z.jpg");
    assert_eq!(d.label_path(1), "out/y.txt");
}

#[test]
fn next_and_previous_clamp() {
    let mut d = dataset(3);
    d.previous();
    assert_eq!(d.get_progress().1, 0);
    for _ in 0..5 {
        d.next();
    }
    assert_eq!(d.get_progress().1, 2);
    d.previous();
    assert_eq!(d.get_progress().1, 1);
}
