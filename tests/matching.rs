use boundrs::dataset::{Dataset, DatasetMovement};
use boundrs::label::{Card, CardSuit, Suit};
use boundrs::relabeling::{
    find_next_highlighted, may_go, relabel_box, should_advance, take_similar_bbs,
};
use boundrs::yolo::YoloBB;

fn old_bb(class_num: usize, x: &str) -> YoloBB<Card> {
    YoloBB::new(class_num, x.into(), "0.5".into(), "0.1".into(), "0.1".into())
}

fn new_bb(class_num: usize, x: &str) -> YoloBB<CardSuit> {
    YoloBB::new(class_num, x.into(), "0.5".into(), "0.1".into(), "0.1".into())
}

#[test]
fn equivalent_box_leaves_nothing_highlighted() {
    // one old box, one new box overlapping it at IoU 0.97
    assert_eq!(find_next_highlighted(&vec![vec![true]]), None);
}

#[test]
fn highlight_moves_on_after_assignment() {
    let old = vec![old_bb(7, "0.2"), old_bb(3, "0.7")];
    let mut new: Vec<YoloBB<CardSuit>> = vec![];
    assert_eq!(find_next_highlighted(&vec![vec![], vec![]]), Some(0));
    let b = relabel_box(&old[0], Suit::Hearts);
    assert_eq!(b.class_num, 7);
    assert_eq!(b.x, "0.2");
    new.push(b);
    // the new box is the first old box's own geometry
    assert_eq!(find_next_highlighted(&vec![vec![true], vec![false]]), Some(1));
    assert!(!should_advance(old.len(), new.len(), Some(1)));
    new.push(relabel_box(&old[1], Suit::Spades));
    assert_eq!(new[1].class_num, 3 * 13 + 3);
    assert_eq!(find_next_highlighted(&vec![vec![true, false], vec![false, true]]), None);
    assert!(should_advance(old.len(), new.len(), None));
}

#[test]
fn no_old_boxes_nothing_highlighted() {
    assert_eq!(find_next_highlighted(&vec![]), None);
}

#[test]
fn carry_over_uses_current_geometry_and_previous_class() {
    let old = vec![old_bb(7, "0.21"), old_bb(3, "0.71"), old_bb(1, "0.4")];
    let previous = vec![new_bb(7 + 26, "0.2"), new_bb(3 + 13, "0.7")];
    let eq = vec![vec![true, false], vec![false, true], vec![false, false]];
    let carried = take_similar_bbs(&old, &previous, &eq);
    assert_eq!(carried.len(), 2);
    assert_eq!(carried[0].class_num, 33);
    assert_eq!(carried[0].x, "0.21");
    assert_eq!(carried[1].class_num, 16);
    assert_eq!(carried[1].x, "0.71");
}

#[test]
fn carry_over_keeps_every_equivalent_candidate() {
    let old = vec![old_bb(7, "0.2")];
    let previous = vec![new_bb(1, "0.2"), new_bb(2, "0.2")];
    let carried = take_similar_bbs(&old, &previous, &vec![vec![true, true]]);
    assert_eq!(carried.len(), 2);
    assert_eq!(carried[0].class_num, 1);
    assert_eq!(carried[1].class_num, 2);
}

#[test]
fn relabeled_class_is_composite() {
    let b = relabel_box(&old_bb(7, "0.3"), Suit::Clubs);
    assert_eq!(b.class(), CardSuit(Card::V7, Suit::Clubs));
    assert_eq!(b.class_num, 2 * 13 + 7);
    assert_eq!(b.y, "0.5");
}

#[test]
fn guarded_advance_refuses_mismatched_counts() {
    let names: Vec<String> = (0..3).map(|i| format!("input/{}.jpg", i)).collect();
    let mut old: Dataset<Card> = Dataset::from_image_paths(names.clone(), "input").unwrap();
    let mut new: Dataset<CardSuit> =
        Dataset::from_image_paths(names, "input").unwrap().with_label_prefix("new_");
    let before = old.get_progress().1;
    if may_go(&DatasetMovement::Next, 3, 2) {
        old.after_save(&DatasetMovement::Next);
        new.after_save(&DatasetMovement::Next);
    }
    assert_eq!(old.get_progress().1, before);
    assert_eq!(new.get_progress().1, before);
    assert!(may_go(&DatasetMovement::Previous, 3, 2));
    assert!(may_go(&DatasetMovement::Next, 2, 2));
}
