//! Carrying boxes from the coarse card taxonomy over to the card-suit one.
//!
//! Whether two boxes are the same box is decided by their overlap on the
//! image (intersection over union at or above a threshold), which the caller
//! measures in pixels; these rules take that decision as a matrix
//! `equivalent[i][j]`: old box `i` and new (or candidate) box `j` are the same.
use vstd::prelude::*;

use crate::dataset::DatasetMovement;
use crate::label::{Card, CardSuit, Label, Suit};
use crate::yolo::YoloBB;

verus! {

/// Some box of the other label set is the same as this one.
pub open spec fn matched(row: Seq<bool>) -> bool {
    exists|j: int| 0 <= j < row.len() && row[j]
}

/// The matrix of a list of rows.
pub open spec fn matrix_view(m: Seq<Vec<bool>>) -> Seq<Seq<bool>> {
    m.map_values(|row: Vec<bool>| row@)
}

/// The first old box with no equivalent new box, if any.
pub open spec fn first_unmatched(m: Seq<Seq<bool>>) -> Option<nat>
    decreases m.len(),
{
    if m.len() == 0 {
        None
    } else {
        match first_unmatched(m.drop_last()) {
            Some(i) => Some(i),
            None => if matched(m.last()) {
                None
            } else {
                Some((m.len() - 1) as nat)
            },
        }
    }
}

/// The box to highlight next: the first old box that no new box is
/// equivalent to, or `None` when every old box has one.
pub fn find_next_highlighted(equivalent: &Vec<Vec<bool>>) -> (r: Option<usize>)
    ensures
        match r {
            Some(i) => i < equivalent@.len() && !matched(equivalent@[i as int]@) && forall|k: int|
                0 <= k < i ==> matched(#[trigger] equivalent@[k]@),
            None => forall|k: int| 0 <= k < equivalent@.len() ==> matched(#[trigger] equivalent@[k]@),
        },
        r matches Some(i) ==> first_unmatched(matrix_view(equivalent@)) == Some(i as nat),
        r is None ==> first_unmatched(matrix_view(equivalent@)) is None,
{
    let mut i: usize = 0;
    while i < equivalent.len()
        invariant
            i <= equivalent@.len(),
            forall|k: int| 0 <= k < i ==> matched(#[trigger] equivalent@[k]@),
            first_unmatched(matrix_view(equivalent@).take(i as int)) is None,
        decreases equivalent@.len() - i,
    {
        let row = &equivalent[i];
        let mut any = false;
        let mut j: usize = 0;
        while j < row.len()
            invariant
                j <= row@.len(),
                any <==> exists|k: int| 0 <= k < j && row@[k],
            decreases row@.len() - j,
        {
            if row[j] {
                any = true;
            }
            j += 1;
        }
        let ghost m = matrix_view(equivalent@);
        assert(m.take(i + 1).drop_last() =~= m.take(i as int));
        assert(m.take(i + 1).last() == row@);
        if !any {
            proof {
                lemma_first_unmatched_prefix(m, i + 1);
            }
            return Some(i);
        }
        i += 1;
    }
    proof {
        assert(matrix_view(equivalent@).take(i as int) =~= matrix_view(equivalent@));
    }
    None
}

/// The first unmatched row of a prefix is the first of the whole matrix.
proof fn lemma_first_unmatched_prefix(m: Seq<Seq<bool>>, n: int)
    requires
        0 <= n <= m.len(),
        first_unmatched(m.take(n)) is Some,
    ensures
        first_unmatched(m) == first_unmatched(m.take(n)),
    decreases m.len() - n,
{
    if n < m.len() {
        assert(m.take(n + 1).drop_last() =~= m.take(n));
        lemma_first_unmatched_prefix(m, n + 1);
    } else {
        assert(m.take(n) =~= m);
    }
}

/// `b` has the class index `class_num` and the geometry of `geometry`.
pub open spec fn moved_box(b: YoloBB<CardSuit>, geometry: YoloBB<Card>, class_num: nat) -> bool {
    &&& b.class_num == class_num
    &&& b.x@ == geometry.x@
    &&& b.y@ == geometry.y@
    &&& b.w@ == geometry.w@
    &&& b.h@ == geometry.h@
}

/// The boxes that carrying over produces, as (old box, candidate box) pairs:
/// for each old box in order, each equivalent candidate in order.
pub open spec fn carried_pairs(m: Seq<Seq<bool>>, candidates: nat) -> Seq<(int, int)>
    decreases m.len(),
{
    if m.len() == 0 {
        Seq::empty()
    } else {
        carried_pairs(m.drop_last(), candidates) + row_pairs(
            m.len() - 1,
            m.last(),
            candidates as int,
        )
    }
}

/// The pairs of one old box: each candidate `j < n` that is equivalent to it.
pub open spec fn row_pairs(i: int, row: Seq<bool>, n: int) -> Seq<(int, int)>
    decreases n,
{
    if n <= 0 {
        Seq::empty()
    } else if row[n - 1] {
        row_pairs(i, row, n - 1).push((i, n - 1))
    } else {
        row_pairs(i, row, n - 1)
    }
}

/// The new label set for the current image, taken from the previous image's
/// new label set: for every old box (in order) and every candidate box
/// equivalent to it (in order), a box with the old box's geometry and the
/// candidate's class.
pub fn take_similar_bbs(
    old_label: &Vec<YoloBB<Card>>,
    candidates: &Vec<YoloBB<CardSuit>>,
    equivalent: &Vec<Vec<bool>>,
) -> (r: Vec<YoloBB<CardSuit>>)
    requires
        equivalent@.len() == old_label@.len(),
        forall|i: int|
            0 <= i < equivalent@.len() ==> (#[trigger] equivalent@[i])@.len()
                == candidates@.len(),
    ensures
        r@.len() == carried_pairs(matrix_view(equivalent@), candidates@.len()).len(),
        forall|k: int|
            0 <= k < r@.len() ==> {
                let p = carried_pairs(matrix_view(equivalent@), candidates@.len())[k];
                moved_box(#[trigger] r@[k], old_label@[p.0], candidates@[p.1].class_num as nat)
            },
{
    let ghost m = matrix_view(equivalent@);
    let ghost n = candidates@.len();
    let ghost mut pairs: Seq<(int, int)> = Seq::empty();
    let mut r: Vec<YoloBB<CardSuit>> = Vec::new();
    let mut i: usize = 0;
    assert(m.take(0) =~= Seq::<Seq<bool>>::empty());
    while i < old_label.len()
        invariant
            m == matrix_view(equivalent@),
            m.len() == old_label@.len(),
            n == candidates@.len(),
            equivalent@.len() == old_label@.len(),
            forall|a: int| 0 <= a < equivalent@.len() ==> (#[trigger] equivalent@[a])@.len() == n,
            i <= old_label@.len(),
            pairs == carried_pairs(m.take(i as int), n),
            r@.len() == pairs.len(),
            forall|k: int|
                0 <= k < r@.len() ==> 0 <= (#[trigger] pairs[k]).0 < i && 0 <= pairs[k].1 < n,
            forall|k: int|
                0 <= k < r@.len() ==> moved_box(
                    #[trigger] r@[k],
                    old_label@[pairs[k].0],
                    candidates@[pairs[k].1].class_num as nat,
                ),
        decreases old_label@.len() - i,
    {
        let old = &old_label[i];
        let row = &equivalent[i];
        let ghost before = pairs;
        assert(m[i as int] == row@);
        let mut j: usize = 0;
        while j < candidates.len()
            invariant
                m == matrix_view(equivalent@),
                m.len() == old_label@.len(),
                n == candidates@.len(),
                row@.len() == n,
                m[i as int] == row@,
                i < old_label@.len(),
                old == old_label@[i as int],
                j <= n,
                before == carried_pairs(m.take(i as int), n),
                pairs == before + row_pairs(i as int, row@, j as int),
                r@.len() == pairs.len(),
                forall|k: int|
                    0 <= k < r@.len() ==> 0 <= (#[trigger] pairs[k]).0 <= i && 0 <= pairs[k].1 < n,
                forall|k: int|
                    0 <= k < r@.len() ==> moved_box(
                        #[trigger] r@[k],
                        old_label@[pairs[k].0],
                        candidates@[pairs[k].1].class_num as nat,
                    ),
            decreases n - j,
        {
            let ghost r0 = r@;
            let ghost prior = pairs;
            if row[j] {
                let b = YoloBB::new(
                    candidates[j].class_num,
                    old.x.clone(),
                    old.y.clone(),
                    old.w.clone(),
                    old.h.clone(),
                );
                r.push(b);
                proof {
                    pairs = pairs.push((i as int, j as int));
                    assert(pairs =~= before + row_pairs(i as int, row@, j + 1));
                    assert forall|k: int| 0 <= k < r@.len() implies moved_box(
                        #[trigger] r@[k],
                        old_label@[pairs[k].0],
                        candidates@[pairs[k].1].class_num as nat,
                    ) by {
                        if k < r0.len() {
                            assert(r@[k] == r0[k]);
                            assert(pairs[k] == prior[k]);
                        }
                    }
                    assert forall|k: int| 0 <= k < r@.len() implies 0 <= (
                    #[trigger] pairs[k]).0 <= i && 0 <= pairs[k].1 < n by {
                        if k < r0.len() {
                            assert(pairs[k] == prior[k]);
                        }
                    }
                }
            } else {
                assert(pairs =~= before + row_pairs(i as int, row@, j + 1));
            }
            j += 1;
        }
        proof {
            assert(m.take(i + 1).drop_last() =~= m.take(i as int));
            assert(m.take(i + 1).last() == row@);
            assert(pairs == carried_pairs(m.take(i + 1), n));
        }
        i += 1;
    }
    assert(m.take(old_label@.len() as int) =~= m);
    r
}

/// A box of the card-suit taxonomy at the geometry of an old box, whose class
/// is the old box's card with the given suit.
pub fn relabel_box(old: &YoloBB<Card>, suit: Suit) -> (r: YoloBB<CardSuit>)
    requires
        old.class_num < 13,
    ensures
        moved_box(r, *old, (13 * suit.index() + old.class_num) as nat),
        r.class_num == CardSuit(Card::of_index(old.class_num as nat), suit).index(),
{
    let card = old.class();
    proof {
        Card::lemma_of_index(old.class_num as nat);
    }
    YoloBB::with_class(
        CardSuit(card, suit),
        old.x.clone(),
        old.y.clone(),
        old.w.clone(),
        old.h.clone(),
    )
}

/// A lock-step movement may start: moving to the next image needs as many
/// new boxes as old ones; any other movement may always start.
pub fn may_go(movement: &DatasetMovement<Card>, old_count: usize, new_count: usize) -> (r: bool)
    ensures
        r == !(movement is Next && old_count != new_count),
{
    match movement {
        DatasetMovement::Next => old_count == new_count,
        _ => true,
    }
}

/// After a box was relabeled, the session moves on to the next image when
/// no old box is left without an equivalent and the counts agree.
pub fn should_advance(old_count: usize, new_count: usize, highlighted: Option<usize>) -> (r: bool)
    ensures
        r == (old_count == new_count && highlighted is None),
{
    old_count == new_count && highlighted.is_none()
}

} // verus!
