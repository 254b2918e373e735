//! Label taxonomies: enumerations of classes with a dense index, a display
//! name, a display color and keyboard shortcut chords.
use vstd::prelude::*;

verus! {

/// A display color as red, green and blue channels.
#[derive(Debug, Clone, Copy, PartialEq, Eq, Structural)]
pub struct Rgb {
    pub r: u8,
    pub g: u8,
    pub b: u8,
}

/// Builds a color from its three channels.
pub open spec fn rgb(r: u8, g: u8, b: u8) -> Rgb {
    Rgb { r, g, b }
}

/// A key that takes part in a shortcut chord.
#[derive(Debug, Clone, Copy, PartialEq, Eq, Hash, Structural)]
pub enum Key {
    Num0,
    Num1,
    Num2,
    Num3,
    Num4,
    Num5,
    Num6,
    Num7,
    Num8,
    Num9,
    J,
    Q,
    K,
    H,
    D,
    C,
    S,
}

/// The view of a shortcut table: each chord with the class it selects.
pub open spec fn shortcut_view<L>(table: Seq<(Vec<Key>, L)>) -> Seq<(Seq<Key>, L)> {
    table.map_values(|p: (Vec<Key>, L)| (p.0@, p.1))
}

/// A fixed enumeration of classes with a dense index `0..class_count()`.
pub trait Label: Sized + Copy {
    /// Number of classes in the taxonomy.
    spec fn class_count() -> nat;

    /// The dense index of a class.
    spec fn index(self) -> nat;

    /// The class with a given index.
    spec fn of_index(i: nat) -> Self;

    /// The display name of a class.
    spec fn name(self) -> Seq<char>;

    /// The display color of a class.
    spec fn color_of(self) -> Rgb;

    /// The shortcut chords of the taxonomy, in table order.
    spec fn shortcut_table() -> Seq<(Seq<Key>, Self)>;

    /// Every class has an index in range, and that index leads back to it.
    proof fn lemma_index(self)
        ensures
            self.index() < Self::class_count(),
            Self::of_index(self.index()) == self,
    ;

    /// Every index in range belongs to the class it names.
    proof fn lemma_of_index(i: nat)
        requires
            i < Self::class_count(),
        ensures
            Self::of_index(i).index() == i,
    ;

    /// The number of classes.
    fn count() -> (r: usize)
        ensures
            r == Self::class_count(),
    ;

    fn color(self) -> (r: Rgb)
        ensures
            r == self.color_of(),
    ;

    fn shortcuts() -> (r: Vec<(Vec<Key>, Self)>)
        ensures
            shortcut_view(r@) == Self::shortcut_table(),
    ;

    fn from_usize(i: usize) -> (r: Self)
        requires
            i < Self::class_count(),
        ensures
            r == Self::of_index(i as nat),
            r.index() == i,
    ;

    fn to_usize(self) -> (r: usize)
        ensures
            r == self.index(),
            r < Self::class_count(),
    ;

    fn to_name(self) -> (r: String)
        ensures
            r@ == self.name(),
    ;
}

/// A single chord of one key.
fn chord(k: Key) -> (r: Vec<Key>)
    ensures
        r@ == seq![k],
{
    let mut v = Vec::new();
    v.push(k);
    v
}

/// The suit of a playing card.
#[derive(Debug, Clone, Copy, PartialEq, Eq, Hash, Structural)]
pub enum Suit {
    Hearts,
    Diamonds,
    Clubs,
    Spades,
}

impl Label for Suit {
    open spec fn class_count() -> nat {
        4
    }

    open spec fn index(self) -> nat {
        match self {
            Suit::Hearts => 0,
            Suit::Diamonds => 1,
            Suit::Clubs => 2,
            Suit::Spades => 3,
        }
    }

    open spec fn of_index(i: nat) -> Suit {
        if i == 0 {
            Suit::Hearts
        } else if i == 1 {
            Suit::Diamonds
        } else if i == 2 {
            Suit::Clubs
        } else {
            Suit::Spades
        }
    }

    open spec fn name(self) -> Seq<char> {
        match self {
            Suit::Hearts => seq!['H'],
            Suit::Diamonds => seq!['D'],
            Suit::Clubs => seq!['C'],
            Suit::Spades => seq!['S'],
        }
    }

    open spec fn color_of(self) -> Rgb {
        match self {
            Suit::Hearts => rgb(0x2f, 0x4f, 0x4f),
            Suit::Diamonds => rgb(0x8b, 0x45, 0x13),
            Suit::Clubs => rgb(0x00, 0x80, 0x00),
            Suit::Spades => rgb(0x4b, 0x00, 0x82),
        }
    }

    open spec fn shortcut_table() -> Seq<(Seq<Key>, Suit)> {
        seq![
            (seq![Key::H], Suit::Hearts),
            (seq![Key::D], Suit::Diamonds),
            (seq![Key::C], Suit::Clubs),
            (seq![Key::S], Suit::Spades),
        ]
    }

    proof fn lemma_index(self) {
    }

    proof fn lemma_of_index(i: nat) {
    }

    fn count() -> (r: usize) {
        4
    }

    fn color(self) -> (r: Rgb) {
        match self {
            Suit::Hearts => Rgb { r: 0x2f, g: 0x4f, b: 0x4f },
            Suit::Diamonds => Rgb { r: 0x8b, g: 0x45, b: 0x13 },
            Suit::Clubs => Rgb { r: 0x00, g: 0x80, b: 0x00 },
            Suit::Spades => Rgb { r: 0x4b, g: 0x00, b: 0x82 },
        }
    }

    fn shortcuts() -> (r: Vec<(Vec<Key>, Suit)>) {
        let mut v = Vec::new();
        v.push((chord(Key::H), Suit::Hearts));
        v.push((chord(Key::D), Suit::Diamonds));
        v.push((chord(Key::C), Suit::Clubs));
        v.push((chord(Key::S), Suit::Spades));
        assert(shortcut_view(v@) =~= Self::shortcut_table());
        v
    }

    fn from_usize(i: usize) -> (r: Suit) {
        if i == 0 {
            Suit::Hearts
        } else if i == 1 {
            Suit::Diamonds
        } else if i == 2 {
            Suit::Clubs
        } else {
            Suit::Spades
        }
    }

    fn to_usize(self) -> (r: usize) {
        match self {
            Suit::Hearts => 0,
            Suit::Diamonds => 1,
            Suit::Clubs => 2,
            Suit::Spades => 3,
        }
    }

    fn to_name(self) -> (r: String) {
        let r = match self {
            Suit::Hearts => String::from_str("H"),
            Suit::Diamonds => String::from_str("D"),
            Suit::Clubs => String::from_str("C"),
            Suit::Spades => String::from_str("S"),
        };
        proof {
            reveal_strlit("H");
            reveal_strlit("D");
            reveal_strlit("C");
            reveal_strlit("S");
        }
        assert(r@ =~= self.name());
        r
    }
}

/// The value of a playing card.
#[derive(Debug, Clone, Copy, PartialEq, Eq, Hash, Structural)]
pub enum Card {
    A,
    K,
    Q,
    J,
    V10,
    V9,
    V8,
    V7,
    V6,
    V5,
    V4,
    V3,
    V2,
}

impl Label for Card {
    open spec fn class_count() -> nat {
        13
    }

    open spec fn index(self) -> nat {
        match self {
            Card::A => 0,
            Card::K => 1,
            Card::Q => 2,
            Card::J => 3,
            Card::V10 => 4,
            Card::V9 => 5,
            Card::V8 => 6,
            Card::V7 => 7,
            Card::V6 => 8,
            Card::V5 => 9,
            Card::V4 => 10,
            Card::V3 => 11,
            Card::V2 => 12,
        }
    }

    open spec fn of_index(i: nat) -> Card {
        if i == 0 {
            Card::A
        } else if i == 1 {
            Card::K
        } else if i == 2 {
            Card::Q
        } else if i == 3 {
            Card::J
        } else if i == 4 {
            Card::V10
        } else if i == 5 {
            Card::V9
        } else if i == 6 {
            Card::V8
        } else if i == 7 {
            Card::V7
        } else if i == 8 {
            Card::V6
        } else if i == 9 {
            Card::V5
        } else if i == 10 {
            Card::V4
        } else if i == 11 {
            Card::V3
        } else {
            Card::V2
        }
    }

    open spec fn name(self) -> Seq<char> {
        match self {
            Card::A => seq!['A'],
            Card::K => seq!['K'],
            Card::Q => seq!['Q'],
            Card::J => seq!['J'],
            Card::V10 => seq!['1', '0'],
            Card::V9 => seq!['9'],
            Card::V8 => seq!['8'],
            Card::V7 => seq!['7'],
            Card::V6 => seq!['6'],
            Card::V5 => seq!['5'],
            Card::V4 => seq!['4'],
            Card::V3 => seq!['3'],
            Card::V2 => seq!['2'],
        }
    }

    open spec fn color_of(self) -> Rgb {
        match self {
            Card::A => rgb(0x2f, 0x4f, 0x4f),
            Card::K => rgb(0x8b, 0x45, 0x13),
            Card::Q => rgb(0x00, 0x80, 0x00),
            Card::J => rgb(0x4b, 0x00, 0x82),
            Card::V10 => rgb(0xff, 0x00, 0x00),
            Card::V9 => rgb(0xff, 0xff, 0x00),
            Card::V8 => rgb(0x00, 0xff, 0x00),
            Card::V7 => rgb(0x00, 0xff, 0xff),
            Card::V6 => rgb(0x00, 0x00, 0xff),
            Card::V5 => rgb(0xff, 0x00, 0xff),
            Card::V4 => rgb(0x64, 0x95, 0xed),
            Card::V3 => rgb(0xff, 0xda, 0xb9),
            Card::V2 => rgb(0xff, 0x69, 0xb6),
        }
    }

    open spec fn shortcut_table() -> Seq<(Seq<Key>, Card)> {
        seq![
            (seq![Key::Num1], Card::A),
            (seq![Key::Num2], Card::V2),
            (seq![Key::Num3], Card::V3),
            (seq![Key::Num4], Card::V4),
            (seq![Key::Num5], Card::V5),
            (seq![Key::Num6], Card::V6),
            (seq![Key::Num7], Card::V7),
            (seq![Key::Num8], Card::V8),
            (seq![Key::Num9], Card::V9),
            (seq![Key::Num0], Card::V10),
            (seq![Key::J], Card::J),
            (seq![Key::Q], Card::Q),
            (seq![Key::K], Card::K),
        ]
    }

    proof fn lemma_index(self) {
    }

    proof fn lemma_of_index(i: nat) {
    }

    fn count() -> (r: usize) {
        13
    }

    fn color(self) -> (r: Rgb) {
        match self {
            Card::A => Rgb { r: 0x2f, g: 0x4f, b: 0x4f },
            Card::K => Rgb { r: 0x8b, g: 0x45, b: 0x13 },
            Card::Q => Rgb { r: 0x00, g: 0x80, b: 0x00 },
            Card::J => Rgb { r: 0x4b, g: 0x00, b: 0x82 },
            Card::V10 => Rgb { r: 0xff, g: 0x00, b: 0x00 },
            Card::V9 => Rgb { r: 0xff, g: 0xff, b: 0x00 },
            Card::V8 => Rgb { r: 0x00, g: 0xff, b: 0x00 },
            Card::V7 => Rgb { r: 0x00, g: 0xff, b: 0xff },
            Card::V6 => Rgb { r: 0x00, g: 0x00, b: 0xff },
            Card::V5 => Rgb { r: 0xff, g: 0x00, b: 0xff },
            Card::V4 => Rgb { r: 0x64, g: 0x95, b: 0xed },
            Card::V3 => Rgb { r: 0xff, g: 0xda, b: 0xb9 },
            Card::V2 => Rgb { r: 0xff, g: 0x69, b: 0xb6 },
        }
    }

    fn shortcuts() -> (r: Vec<(Vec<Key>, Card)>) {
        let mut v = Vec::new();
        v.push((chord(Key::Num1), Card::A));
        v.push((chord(Key::Num2), Card::V2));
        v.push((chord(Key::Num3), Card::V3));
        v.push((chord(Key::Num4), Card::V4));
        v.push((chord(Key::Num5), Card::V5));
        v.push((chord(Key::Num6), Card::V6));
        v.push((chord(Key::Num7), Card::V7));
        v.push((chord(Key::Num8), Card::V8));
        v.push((chord(Key::Num9), Card::V9));
        v.push((chord(Key::Num0), Card::V10));
        v.push((chord(Key::J), Card::J));
        v.push((chord(Key::Q), Card::Q));
        v.push((chord(Key::K), Card::K));
        assert(shortcut_view(v@) =~= Self::shortcut_table());
        v
    }

    fn from_usize(i: usize) -> (r: Card) {
        if i == 0 {
            Card::A
        } else if i == 1 {
            Card::K
        } else if i == 2 {
            Card::Q
        } else if i == 3 {
            Card::J
        } else if i == 4 {
            Card::V10
        } else if i == 5 {
            Card::V9
        } else if i == 6 {
            Card::V8
        } else if i == 7 {
            Card::V7
        } else if i == 8 {
            Card::V6
        } else if i == 9 {
            Card::V5
        } else if i == 10 {
            Card::V4
        } else if i == 11 {
            Card::V3
        } else {
            Card::V2
        }
    }

    fn to_usize(self) -> (r: usize) {
        match self {
            Card::A => 0,
            Card::K => 1,
            Card::Q => 2,
            Card::J => 3,
            Card::V10 => 4,
            Card::V9 => 5,
            Card::V8 => 6,
            Card::V7 => 7,
            Card::V6 => 8,
            Card::V5 => 9,
            Card::V4 => 10,
            Card::V3 => 11,
            Card::V2 => 12,
        }
    }

    fn to_name(self) -> (r: String) {
        let r = match self {
            Card::A => String::from_str("A"),
            Card::K => String::from_str("K"),
            Card::Q => String::from_str("Q"),
            Card::J => String::from_str("J"),
            Card::V10 => String::from_str("10"),
            Card::V9 => String::from_str("9"),
            Card::V8 => String::from_str("8"),
            Card::V7 => String::from_str("7"),
            Card::V6 => String::from_str("6"),
            Card::V5 => String::from_str("5"),
            Card::V4 => String::from_str("4"),
            Card::V3 => String::from_str("3"),
            Card::V2 => String::from_str("2"),
        };
        proof {
            reveal_strlit("A");
            reveal_strlit("K");
            reveal_strlit("Q");
            reveal_strlit("J");
            reveal_strlit("10");
            reveal_strlit("9");
            reveal_strlit("8");
            reveal_strlit("7");
            reveal_strlit("6");
            reveal_strlit("5");
            reveal_strlit("4");
            reveal_strlit("3");
            reveal_strlit("2");
        }
        assert(r@ =~= self.name());
        r
    }
}


/// A card value together with its suit; its index is `13 * suit + card`.
#[derive(Debug, Clone, Copy, PartialEq, Eq, Hash, Structural)]
pub struct CardSuit(pub Card, pub Suit);

/// The composite index of a card and a suit.
pub open spec fn composite_index(c: Card, s: Suit) -> nat {
    13 * s.index() + c.index()
}

/// The shortcut table of the composite taxonomy: for each card chord (outer)
/// and each suit chord (inner), the suit keys followed by the card keys.
pub open spec fn card_suit_table() -> Seq<(Seq<Key>, CardSuit)> {
    Seq::new(
        52,
        |k: int|
            {
                let cs = Card::shortcut_table()[k / 4];
                let ss = Suit::shortcut_table()[k % 4];
                (ss.0 + cs.0, CardSuit(cs.1, ss.1))
            },
    )
}

proof fn lemma_div_mod_13(c: nat, s: nat)
    requires
        c < 13,
    ensures
        (13 * s + c) / 13 == s,
        (13 * s + c) % 13 == c,
{
    assert((13 * s + c) / 13 == s && (13 * s + c) % 13 == c) by (nonlinear_arith)
        requires
            c < 13,
    ;
}

impl Label for CardSuit {
    open spec fn class_count() -> nat {
        52
    }

    open spec fn index(self) -> nat {
        composite_index(self.0, self.1)
    }

    open spec fn of_index(i: nat) -> CardSuit {
        CardSuit(Card::of_index(i % 13), Suit::of_index(i / 13))
    }

    open spec fn name(self) -> Seq<char> {
        self.0.name() + self.1.name()
    }

    open spec fn color_of(self) -> Rgb {
        self.0.color_of()
    }

    open spec fn shortcut_table() -> Seq<(Seq<Key>, CardSuit)> {
        card_suit_table()
    }

    proof fn lemma_index(self) {
        self.0.lemma_index();
        self.1.lemma_index();
        lemma_div_mod_13(self.0.index(), self.1.index());
    }

    proof fn lemma_of_index(i: nat) {
        let c = i % 13;
        let s = i / 13;
        assert(i == 13 * s + c && s < 4) by (nonlinear_arith)
            requires
                i < 52,
                c == i % 13,
                s == i / 13,
        ;
        Card::lemma_of_index(c);
        Suit::lemma_of_index(s);
    }

    fn count() -> (r: usize) {
        52
    }

    fn color(self) -> (r: Rgb) {
        self.0.color()
    }

    fn shortcuts() -> (r: Vec<(Vec<Key>, CardSuit)>) {
        let card_shortcuts = Card::shortcuts();
        let suit_shortcuts = Suit::shortcuts();
        let ghost ct = Card::shortcut_table();
        let ghost st = Suit::shortcut_table();
        let mut shortcuts: Vec<(Vec<Key>, CardSuit)> = Vec::new();
        let mut i: usize = 0;
        while i < card_shortcuts.len()
            invariant
                shortcut_view(card_shortcuts@) == ct,
                shortcut_view(suit_shortcuts@) == st,
                ct == Card::shortcut_table(),
                st == Suit::shortcut_table(),
                ct.len() == 13,
                st.len() == 4,
                i <= 13,
                shortcuts@.len() == 4 * i,
                forall|k: int|
                    0 <= k < 4 * i ==> shortcut_view(shortcuts@)[k] == card_suit_table()[k],
            decreases 13 - i,
        {
            let mut j: usize = 0;
            while j < suit_shortcuts.len()
                invariant
                    shortcut_view(card_shortcuts@) == ct,
                    shortcut_view(suit_shortcuts@) == st,
                    ct == Card::shortcut_table(),
                    st == Suit::shortcut_table(),
                    ct.len() == 13,
                    st.len() == 4,
                    i < 13,
                    j <= 4,
                    shortcuts@.len() == 4 * i + j,
                    forall|k: int|
                        0 <= k < 4 * i + j ==> shortcut_view(shortcuts@)[k]
                            == card_suit_table()[k],
                decreases 4 - j,
            {
                let keys = concat_chords(&suit_shortcuts[j].0, &card_shortcuts[i].0);
                let class = CardSuit(card_shortcuts[i].1, suit_shortcuts[j].1);
                let ghost before = shortcuts@;
                shortcuts.push((keys, class));
                proof {
                    let k = 4 * i + j;
                    assert(shortcuts@[k] == (keys, class));
                    assert(card_suit_table()[k] == (st[j as int].0 + ct[i as int].0,
                        CardSuit(ct[i as int].1, st[j as int].1)));
                    assert forall|m: int| 0 <= m < k implies shortcuts@[m] == before[m] by {}
                    assert(k / 4 == i as int && k % 4 == j as int && k < 52) by (nonlinear_arith)
                        requires
                            k == 4 * i + j,
                            j < 4,
                            i < 13,
                    ;
                    assert(shortcut_view(card_shortcuts@)[i as int] == ct[i as int]);
                    assert(shortcut_view(suit_shortcuts@)[j as int] == st[j as int]);
                    assert forall|m: int| 0 <= m < 4 * i + j + 1 implies shortcut_view(
                        shortcuts@,
                    )[m] == card_suit_table()[m] by {
                        if m < k {
                            assert(shortcut_view(before)[m] == card_suit_table()[m]);
                        } else {
                            assert(m == k);
                            assert(shortcut_view(shortcuts@)[m] == (keys@, class));
                        }
                    }
                }
                j += 1;
            }
            i += 1;
        }
        assert(shortcut_view(shortcuts@) =~= card_suit_table());
        shortcuts
    }

    fn from_usize(i: usize) -> (r: CardSuit) {
        proof {
            CardSuit::lemma_of_index(i as nat);
        }
        let suit = Suit::from_usize(i / 13);
        let card = Card::from_usize(i % 13);
        CardSuit(card, suit)
    }

    fn to_usize(self) -> (r: usize) {
        proof {
            self.lemma_index();
        }
        13 * self.1.to_usize() + self.0.to_usize()
    }

    fn to_name(self) -> (r: String) {
        let card = self.0.to_name();
        let suit = self.1.to_name();
        card.concat(suit.as_str())
    }
}

/// The chord made of the keys of `first` followed by the keys of `second`.
fn concat_chords(first: &Vec<Key>, second: &Vec<Key>) -> (r: Vec<Key>)
    ensures
        r@ == first@ + second@,
{
    let mut r: Vec<Key> = Vec::new();
    let mut i: usize = 0;
    while i < first.len()
        invariant
            i <= first@.len(),
            r@ == first@.take(i as int),
        decreases first@.len() - i,
    {
        r.push(first[i]);
        i += 1;
        assert(r@ =~= first@.take(i as int));
    }
    assert(first@.take(first@.len() as int) =~= first@);
    let mut j: usize = 0;
    while j < second.len()
        invariant
            j <= second@.len(),
            r@ == first@ + second@.take(j as int),
        decreases second@.len() - j,
    {
        r.push(second[j]);
        j += 1;
        assert(r@ =~= first@ + second@.take(j as int));
    }
    assert(second@.take(second@.len() as int) =~= second@);
    r
}


/// For every class of a taxonomy, its index lies in `0..class_count()` and
/// decoding that index gives the class back.
pub proof fn law_index_round_trip<L: Label>(x: L)
    ensures
        x.index() < L::class_count(),
        L::of_index(x.index()) == x,
{
    x.lemma_index();
}

/// Decoding the composite index of a card and a suit gives the same card and
/// suit back (card = index % 13, suit = index / 13), and the index lies in
/// `0..13 * 4`.
pub proof fn law_composite_round_trip(c: Card, s: Suit)
    ensures
        CardSuit::of_index(composite_index(c, s)) == CardSuit(c, s),
        (composite_index(c, s) % 13) == c.index(),
        (composite_index(c, s) / 13) == s.index(),
        composite_index(c, s) < 13 * 4,
{
    CardSuit(c, s).lemma_index();
    lemma_div_mod_13(c.index(), s.index());
}

/// Two card-suit pairs with the same composite index are the same pair.
pub proof fn law_composite_no_collision(a: CardSuit, b: CardSuit)
    ensures
        composite_index(a.0, a.1) == composite_index(b.0, b.1) ==> a == b,
{
    a.lemma_index();
    b.lemma_index();
}

/// Every index in `0..13 * 4` is the composite index of some card-suit pair.
pub proof fn law_composite_covers_range(i: nat)
    requires
        i < 13 * 4,
    ensures
        exists|c: Card, s: Suit| composite_index(c, s) == i,
{
    CardSuit::lemma_of_index(i);
    let x = CardSuit::of_index(i);
    assert(composite_index(x.0, x.1) == i);
}


/// Every key of the chord is held.
pub open spec fn chord_held(chord: Seq<Key>, pressed: Seq<Key>) -> bool {
    forall|i: int| 0 <= i < chord.len() ==> pressed.contains(#[trigger] chord[i])
}

/// The classes of the table entries whose chords are held, in table order.
pub open spec fn held_classes<L>(table: Seq<(Seq<Key>, L)>, pressed: Seq<Key>) -> Seq<L>
    decreases table.len(),
{
    if table.len() == 0 {
        Seq::empty()
    } else {
        let rest = held_classes(table.drop_last(), pressed);
        if chord_held(table.last().0, pressed) {
            rest.push(table.last().1)
        } else {
            rest
        }
    }
}

/// The classes of a taxonomy whose shortcut chords are fully held, in the
/// order of the taxonomy's shortcut table.
pub fn classes_pressed<L: Label>(pressed: &Vec<Key>) -> (r: Vec<L>)
    ensures
        r@ == held_classes(L::shortcut_table(), pressed@),
{
    let table = L::shortcuts();
    let ghost t = L::shortcut_table();
    let mut r: Vec<L> = Vec::new();
    let mut i: usize = 0;
    assert(t.take(0) =~= Seq::<(Seq<Key>, L)>::empty());
    while i < table.len()
        invariant
            shortcut_view(table@) == t,
            t == L::shortcut_table(),
            i <= table@.len(),
            r@ == held_classes(t.take(i as int), pressed@),
        decreases table@.len() - i,
    {
        let chord = &table[i].0;
        assert(t[i as int] == (chord@, table@[i as int].1));
        let mut held = true;
        let mut k: usize = 0;
        while k < chord.len()
            invariant
                k <= chord@.len(),
                held <==> forall|m: int| 0 <= m < k ==> pressed@.contains(#[trigger] chord@[m]),
            decreases chord@.len() - k,
        {
            if !key_in(pressed, chord[k]) {
                held = false;
            }
            k += 1;
        }
        assert(t.take(i + 1).drop_last() =~= t.take(i as int));
        assert(t.take(i + 1).last() == t[i as int]);
        if held {
            r.push(table[i].1);
        }
        i += 1;
    }
    assert(t.take(table@.len() as int) =~= t);
    r
}

/// `k` is one of the keys.
fn key_in(keys: &Vec<Key>, k: Key) -> (r: bool)
    ensures
        r == keys@.contains(k),
{
    let mut i: usize = 0;
    while i < keys.len()
        invariant
            i <= keys@.len(),
            forall|m: int| 0 <= m < i ==> keys@[m] != k,
        decreases keys@.len() - i,
    {
        if keys[i] == k {
            return true;
        }
        i += 1;
    }
    false
}

} // verus!
