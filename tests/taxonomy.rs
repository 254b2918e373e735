use boundrs::label::{classes_pressed, Card, CardSuit, Key, Label, Rgb, Suit};

#[test]
fn card_index_round_trip() {
    for i in 0..13usize {
        let c = Card::from_usize(i);
        assert_eq!(c.to_usize(), i);
        assert_eq!(Card::from_usize(c.to_usize()), c);
    }
}

#[test]
fn suit_index_round_trip() {
    for i in 0..4usize {
        let s = Suit::from_usize(i);
        assert_eq!(s.to_usize(), i);
        assert_eq!(Suit::from_usize(s.to_usize()), s);
    }
}

#[test]
fn composite_index_covers_range_without_collisions() {
    let mut seen = vec![false; 52];
    for s in 0..4usize {
        for c in 0..13usize {
            let cs = CardSuit(Card::from_usize(c), Suit::from_usize(s));
            let i = cs.to_usize();
            assert_eq!(i, s * 13 + c);
            assert!(i < 52);
            assert!(!seen[i]);
            seen[i] = true;
            assert_eq!(CardSuit::from_usize(i), cs);
        }
    }
    assert!(seen.iter().all(|b| *b));
}

#[test]
fn composite_decoding_splits_by_thirteen() {
    assert_eq!(CardSuit::from_usize(0), CardSuit(Card::A, Suit::Hearts));
    assert_eq!(CardSuit::from_usize(7), CardSuit(Card::V7, Suit::Hearts));
    assert_eq!(CardSuit::from_usize(13), CardSuit(Card::A, Suit::Diamonds));
    assert_eq!(CardSuit::from_usize(51), CardSuit(Card::V2, Suit::Spades));
    assert_eq!(CardSuit(Card::V7, Suit::Clubs).to_usize(), 2 * 13 + 7);
}

#[test]
fn names_of_classes() {
    assert_eq!(Card::A.to_name(), "A");
    assert_eq!(Card::V10.to_name(), "10");
    assert_eq!(Card::V2.to_name(), "2");
    assert_eq!(Suit::Spades.to_name(), "S");
    assert_eq!(CardSuit(Card::V10, Suit::Hearts).to_name(), "10H");
    assert_eq!(CardSuit(Card::Q, Suit::Clubs).to_name(), "QC");
}

#[test]
fn colors_of_classes() {
    assert_eq!(Card::V10.color(), Rgb { r: 0xff, g: 0x00, b: 0x00 });
    assert_eq!(Card::V3.color(), Rgb { r: 0xff, g: 0xda, b: 0xb9 });
    assert_eq!(Suit::Clubs.color(), Rgb { r: 0x00, g: 0x80, b: 0x00 });
    assert_eq!(CardSuit(Card::V4, Suit::Spades).color(), Card::V4.color());
}

#[test]
fn card_and_suit_shortcuts() {
    let cards = Card::shortcuts();
    assert_eq!(cards.len(), 13);
    assert!(cards.contains(&(vec![Key::Num1], Card::A)));
    assert!(cards.contains(&(vec![Key::Num0], Card::V10)));
    assert!(cards.contains(&(vec![Key::K], Card::K)));
    let suits = Suit::shortcuts();
    assert_eq!(suits.len(), 4);
    assert!(suits.contains(&(vec![Key::H], Suit::Hearts)));
}

#[test]
fn composite_shortcuts_are_the_product() {
    let table = CardSuit::shortcuts();
    assert_eq!(table.len(), 52);
    assert_eq!(table[0], (vec![Key::H, Key::Num1], CardSuit(Card::A, Suit::Hearts)));
    assert!(table.contains(&(vec![Key::S, Key::Num7], CardSuit(Card::V7, Suit::Spades))));
    assert!(table.contains(&(vec![Key::D, Key::Q], CardSuit(Card::Q, Suit::Diamonds))));
    for (i, a) in table.iter().enumerate() {
        for b in table.iter().skip(i + 1) {
            assert_ne!(a.0, b.0);
            assert_ne!(a.1, b.1);
        }
    }
}

#[test]
fn held_chords_select_classes() {
    assert_eq!(classes_pressed::<Suit>(&vec![Key::D]), vec![Suit::Diamonds]);
    assert_eq!(classes_pressed::<Card>(&vec![Key::Num7, Key::H]), vec![Card::V7]);
    assert_eq!(
        classes_pressed::<CardSuit>(&vec![Key::Num7, Key::H]),
        vec![CardSuit(Card::V7, Suit::Hearts)]
    );
    assert!(classes_pressed::<CardSuit>(&vec![Key::Num7]).is_empty());
    assert!(classes_pressed::<Suit>(&vec![]).is_empty());
}

#[test]
fn class_counts() {
    assert_eq!(Card::count(), 13);
    assert_eq!(Suit::count(), 4);
    assert_eq!(CardSuit::count(), 52);
}
