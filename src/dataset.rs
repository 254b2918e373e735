//! A dataset: images in natural order, each with its label file, and a cursor
//! that moves by four policies.
//!
//! Reading and writing files is left to the caller. A movement is carried out
//! as a short exchange: the caller saves the label set of the current image,
//! calls [`Dataset::after_save`], and while that (or
//! [`Dataset::after_load`]) names an image to inspect, reads that image's
//! label set and hands it to [`Dataset::after_load`].
use std::marker::PhantomData;
use vstd::prelude::*;

use crate::label::Label;
use crate::paths::{
    file_name, file_name_of, label_path, label_path_of, prefixed_path, prefixed_path_of,
};
use crate::text::{strings_view, text_of};
use crate::yolo::{label_lines, label_text, YoloBB};

verus! {

/// Names the order in which `alphanumeric_sort` puts a list of paths.
pub uninterp spec fn natural_order(paths: Seq<Seq<char>>) -> Seq<Seq<char>>;

/// Relies on `alphanumeric_sort::sort_path_slice`: it sorts the paths in place
/// (an unstable sort by the alphanumeric comparison, then a permutation of
/// the slice), so it keeps the same paths, and the order it leaves depends on
/// the paths alone.
#[verifier::external_body]
fn sort_paths(paths: &mut Vec<String>)
    ensures
        strings_view(final(paths)@) == natural_order(strings_view(old(paths)@)),
        strings_view(final(paths)@).to_multiset() == strings_view(old(paths)@).to_multiset(),
{
    alphanumeric_sort::sort_path_slice(paths);
}

/// One image and the path of its label file.
#[derive(Debug)]
pub struct Datapoint<L> {
    img_src: String,
    label_src: String,
    label: PhantomData<L>,
}

impl<L> Datapoint<L> {
    pub closed spec fn image_path(&self) -> Seq<char> {
        self.img_src@
    }

    pub closed spec fn label_file(&self) -> Seq<char> {
        self.label_src@
    }

    /// The datapoint of an image whose label file lies in `labels_dir`, under
    /// the image's file name with the extension `txt`.
    pub fn new(img_src: String, labels_dir: &str) -> (r: Self)
        ensures
            r.image_path() == img_src@,
            r.label_file() == label_path(labels_dir@, img_src@),
    {
        let label_src = label_path_of(labels_dir, img_src.as_str());
        Datapoint { img_src, label_src, label: PhantomData }
    }

    /// The path of the image, for the image decoder.
    pub fn load_image(&self) -> (r: &str)
        ensures
            r@ == self.image_path(),
    {
        self.img_src.as_str()
    }

    /// The file name of the image.
    pub fn name(&self) -> (r: String)
        ensures
            r@ == file_name(self.image_path()),
    {
        file_name_of(self.img_src.as_str())
    }
}

/// Why a dataset could not be built.
#[derive(Debug, Clone, Copy, PartialEq, Eq, Structural)]
pub enum DatasetError {
    /// No image was given.
    NoImages,
}

/// How the cursor moves.
pub enum DatasetMovement<L> {
    /// One image forward, stopping at the last.
    Next,
    /// One image back, stopping at the first.
    Previous,
    /// Forward to the next image with a box of one of the classes, or to the
    /// last image.
    NextContaining(Vec<L>),
    /// Back to the previous image with a box of one of the classes, or to the
    /// first image.
    PreviousContaining(Vec<L>),
}

/// The index `Next` moves to.
pub open spec fn next_index(i: nat, len: nat) -> nat {
    if i + 1 < len {
        i + 1
    } else {
        i
    }
}

/// The index `Previous` moves to.
pub open spec fn previous_index(i: nat) -> nat {
    if i > 0 {
        (i - 1) as nat
    } else {
        0
    }
}

/// One step of a scan: the next index toward the end (forward) or the start,
/// or `None` at that boundary.
pub open spec fn scan_step(i: nat, len: nat, forward: bool) -> Option<nat> {
    if forward {
        if i + 1 < len {
            Some(i + 1)
        } else {
            None
        }
    } else {
        if i > 0 {
            Some((i - 1) as nat)
        } else {
            None
        }
    }
}

/// Some box of the label set has the index of one of the classes.
pub open spec fn has_class<L: Label>(label: Seq<YoloBB<L>>, classes: Seq<L>) -> bool {
    exists|j: int, k: int|
        0 <= j < label.len() && 0 <= k < classes.len() && label[j].class_num
            == classes[k].index()
}

impl<L> DatasetMovement<L> {
    /// The movement scans toward the end (true) or the start (false).
    pub open spec fn forward(&self) -> bool {
        self is Next || self is NextContaining
    }

    /// The classes a scanning movement looks for.
    pub open spec fn classes(&self) -> Seq<L> {
        match self {
            DatasetMovement::NextContaining(c) => c@,
            DatasetMovement::PreviousContaining(c) => c@,
            _ => Seq::empty(),
        }
    }

    /// The movement scans label sets.
    pub open spec fn scans(&self) -> bool {
        self is NextContaining || self is PreviousContaining
    }
}

/// Images with their label files, in natural order, and a cursor.
pub struct Dataset<L> {
    data: Vec<Datapoint<L>>,
    i: usize,
}

impl<L> Dataset<L> {
    /// The cursor.
    pub closed spec fn index(&self) -> nat {
        self.i as nat
    }

    /// The number of images.
    pub closed spec fn size(&self) -> nat {
        self.data@.len()
    }

    /// The image paths, in order.
    pub closed spec fn image_paths(&self) -> Seq<Seq<char>> {
        self.data@.map_values(|d: Datapoint<L>| d.image_path())
    }

    /// The label file paths, in the order of the images.
    pub closed spec fn label_paths(&self) -> Seq<Seq<char>> {
        self.data@.map_values(|d: Datapoint<L>| d.label_file())
    }

    /// The dataset holds at least one image and the cursor points at one.
    pub open spec fn wf(&self) -> bool {
        &&& 0 < self.size()
        &&& self.index() < self.size()
        &&& self.image_paths().len() == self.size()
        &&& self.label_paths().len() == self.size()
    }

    proof fn lemma_views(&self)
        ensures
            self.image_paths().len() == self.size(),
            self.label_paths().len() == self.size(),
            forall|k: int|
                0 <= k < self.size() ==> (#[trigger] self.image_paths()[k]) == self.data@[k].image_path()
                    && self.label_paths()[k] == self.data@[k].label_file(),
    {
    }

    /// A dataset over the given image paths, sorted in natural order, with
    /// label files in `labels_dir`; the cursor starts at the first image.
    /// Fails when no image is given.
    pub fn from_image_paths(paths: Vec<String>, labels_dir: &str) -> (r: Result<Self, DatasetError>)
        ensures
            match r {
                Ok(d) => {
                    &&& paths@.len() > 0
                    &&& d.wf()
                    &&& d.index() == 0
                    &&& d.image_paths() == natural_order(strings_view(paths@))
                    &&& d.image_paths().to_multiset() == strings_view(paths@).to_multiset()
                    &&& d.size() == paths@.len()
                    &&& forall|k: int|
                        0 <= k < d.size() ==> (#[trigger] d.label_paths()[k]) == label_path(
                            labels_dir@,
                            d.image_paths()[k],
                        )
                },
                Err(e) => paths@.len() == 0 && e == DatasetError::NoImages,
            },
    {
        let mut paths = paths;
        let ghost given = strings_view(paths@);
        sort_paths(&mut paths);
        proof {
            strings_view(paths@).to_multiset_ensures();
            given.to_multiset_ensures();
        }
        let r = Self::from_sorted_paths(paths, labels_dir);
        proof {
            if r is Ok {
                r->Ok_0.image_paths().to_multiset_ensures();
            }
        }
        r
    }

    /// A dataset over image paths already in the order wanted, with label
    /// files in `labels_dir`; the cursor starts at the first image. Fails
    /// when no image is given.
    pub fn from_sorted_paths(paths: Vec<String>, labels_dir: &str) -> (r: Result<
        Self,
        DatasetError,
    >)
        ensures
            match r {
                Ok(d) => {
                    &&& paths@.len() > 0
                    &&& d.wf()
                    &&& d.index() == 0
                    &&& d.image_paths() == strings_view(paths@)
                    &&& forall|k: int|
                        0 <= k < d.size() ==> (#[trigger] d.label_paths()[k]) == label_path(
                            labels_dir@,
                            d.image_paths()[k],
                        )
                },
                Err(e) => paths@.len() == 0 && e == DatasetError::NoImages,
            },
    {
        if paths.len() == 0 {
            return Err(DatasetError::NoImages);
        }
        let ghost sorted = strings_view(paths@);
        let mut data: Vec<Datapoint<L>> = Vec::new();
        let mut k: usize = 0;
        while k < paths.len()
            invariant
                sorted == strings_view(paths@),
                sorted.len() == paths@.len(),
                k <= paths@.len(),
                data@.len() == k,
                forall|m: int|
                    0 <= m < k ==> (#[trigger] data@[m]).image_path() == sorted[m]
                        && data@[m].label_file() == label_path(labels_dir@, sorted[m]),
            decreases paths@.len() - k,
        {
            assert(paths@[k as int]@ == sorted[k as int]);
            let p = paths[k].clone();
            let d = Datapoint::new(p, labels_dir);
            data.push(d);
            k += 1;
        }
        let r = Dataset { data, i: 0 };
        proof {
            r.lemma_views();
            assert(r.image_paths() =~= sorted);
            assert forall|k: int| 0 <= k < r.size() implies (#[trigger] r.label_paths()[k])
                == label_path(labels_dir@, r.image_paths()[k]) by {
                assert(r.label_paths()[k] == r.data@[k].label_file());
            }
        }
        Ok(r)
    }
}



impl<L> Dataset<L> {
    /// Moves the cursor to the first image whose label file does not exist
    /// yet (`has_label[k]` tells whether image `k` has one), or to the first
    /// image if all have one.
    pub fn resume_at_first_unlabeled(&mut self, has_label: &Vec<bool>)
        requires
            old(self).wf(),
            has_label@.len() == old(self).size(),
        ensures
            final(self).wf(),
            (exists|k: int| 0 <= k < has_label@.len() && !has_label@[k]) ==> {
                &&& !has_label@[final(self).index() as int]
                &&& forall|j: int| 0 <= j < final(self).index() ==> has_label@[j]
            },
            (forall|k: int| 0 <= k < has_label@.len() ==> has_label@[k]) ==> final(self).index()
                == 0,
            final(self).image_paths() == old(self).image_paths(),
            final(self).label_paths() == old(self).label_paths(),
    {
        let mut k: usize = 0;
        while k < has_label.len()
            invariant
                *self == *old(self),
                k <= has_label@.len(),
                has_label@.len() == self.size(),
                forall|j: int| 0 <= j < k ==> has_label@[j],
            decreases has_label@.len() - k,
        {
            if !has_label[k] {
                self.i = k;
                return;
            }
            k += 1;
        }
        self.i = 0;
    }

    /// The same images with `prefix` in front of every label file name, so
    /// that a second label set can live beside the first.
    pub fn with_label_prefix(self, prefix: &str) -> (r: Self)
        requires
            self.wf(),
        ensures
            r.wf(),
            r.index() == self.index(),
            r.image_paths() == self.image_paths(),
            forall|k: int|
                0 <= k < r.size() ==> (#[trigger] r.label_paths()[k]) == prefixed_path(
                    self.label_paths()[k],
                    prefix@,
                ),
    {
        let mut dataset = self;
        let ghost before = dataset;
        let mut data: Vec<Datapoint<L>> = Vec::new();
        let mut k: usize = 0;
        proof {
            before.lemma_views();
        }
        while k < dataset.data.len()
            invariant
                dataset == before,
                k <= before.data@.len(),
                data@.len() == k,
                forall|m: int|
                    0 <= m < k ==> (#[trigger] data@[m]).image_path() == before.data@[m].image_path()
                        && data@[m].label_file() == prefixed_path(
                        before.data@[m].label_file(),
                        prefix@,
                    ),
            decreases before.data@.len() - k,
        {
            let d = &dataset.data[k];
            let label_src = prefixed_path_of(d.label_src.as_str(), prefix);
            data.push(Datapoint { img_src: d.img_src.clone(), label_src, label: PhantomData });
            k += 1;
        }
        let r = Dataset { data, i: dataset.i };
        proof {
            r.lemma_views();
            assert(r.image_paths() =~= before.image_paths());
        }
        r
    }

    /// The number of images.
    pub fn len(&self) -> (r: usize)
        ensures
            r == self.size(),
    {
        self.data.len()
    }

    /// The path of the image at the cursor, for the image decoder.
    pub fn current_image(&self) -> (r: &str)
        requires
            self.wf(),
        ensures
            r@ == self.image_paths()[self.index() as int],
    {
        proof {
            self.lemma_views();
        }
        self.data[self.i].load_image()
    }

    /// The path of the label file of image `k`.
    pub fn label_path(&self, k: usize) -> (r: &str)
        requires
            self.wf(),
            k < self.size(),
        ensures
            r@ == self.label_paths()[k as int],
    {
        proof {
            self.lemma_views();
        }
        self.data[k].label_src.as_str()
    }

    /// The path of the label file at the cursor.
    pub fn current_label(&self) -> (r: &str)
        requires
            self.wf(),
        ensures
            r@ == self.label_paths()[self.index() as int],
    {
        self.label_path(self.i)
    }

    /// The path of the label file of the image before the cursor, or at the
    /// first image, of that image's own.
    pub fn previous_label(&self) -> (r: &str)
        requires
            self.wf(),
        ensures
            r@ == self.label_paths()[previous_index(self.index()) as int],
    {
        let previous = if self.i > 0 {
            self.i - 1
        } else {
            0
        };
        self.label_path(previous)
    }

    /// The file name of the image at the cursor.
    pub fn current_name(&self) -> (r: String)
        requires
            self.wf(),
        ensures
            r@ == file_name(self.image_paths()[self.index() as int]),
    {
        proof {
            self.lemma_views();
        }
        self.data[self.i].name()
    }

    /// The least index, the cursor and the number of images.
    pub fn get_progress(&self) -> (r: (usize, usize, usize))
        ensures
            r.0 == 0,
            r.1 == self.index(),
            r.2 == self.size(),
    {
        (0, self.i, self.data.len())
    }

    /// What to save before a movement: the label file of the image at the
    /// cursor, and the text of `label` to write there in place of what it
    /// holds.
    pub fn save_label(&self, label: &Vec<YoloBB<L>>) -> (r: (String, String))
        requires
            self.wf(),
        ensures
            r.0@ == self.label_paths()[self.index() as int],
            r.1@ == text_of(label_lines(label@)),
    {
        (String::from_str(self.current_label()), label_text(label))
    }

    /// Applies one step of a movement once the label set at the cursor has
    /// been saved. `Next` and `Previous` are then complete; a scanning
    /// movement moves one image and returns that image's index, whose label
    /// set the caller reads and hands to [`Dataset::after_load`], or returns
    /// `None` at the end it scans toward.
    pub fn after_save(&mut self, movement: &DatasetMovement<L>) -> (r: Option<usize>)
        requires
            old(self).wf(),
        ensures
            final(self).wf(),
            final(self).image_paths() == old(self).image_paths(),
            final(self).label_paths() == old(self).label_paths(),
            match movement {
                DatasetMovement::Next => r is None && final(self).index() == next_index(
                    old(self).index(),
                    old(self).size(),
                ),
                DatasetMovement::Previous => r is None && final(self).index() == previous_index(
                    old(self).index(),
                ),
                _ => self_stepped(
                    old(self).index(),
                    old(self).size(),
                    movement.forward(),
                    final(self).index(),
                    r,
                ),
            },
    {
        match movement {
            DatasetMovement::Next => {
                self.next();
                None
            },
            DatasetMovement::Previous => {
                self.previous();
                None
            },
            DatasetMovement::NextContaining(_) => self.step(true),
            DatasetMovement::PreviousContaining(_) => self.step(false),
        }
    }

    /// One image forward, stopping at the last.
    pub fn next(&mut self)
        requires
            old(self).wf(),
        ensures
            final(self).wf(),
            final(self).image_paths() == old(self).image_paths(),
            final(self).label_paths() == old(self).label_paths(),
            final(self).index() == next_index(old(self).index(), old(self).size()),
            final(self).index() <= final(self).size() - 1,
    {
        if self.i < self.data.len() - 1 {
            self.i = self.i + 1;
        }
    }

    /// One image back, stopping at the first.
    pub fn previous(&mut self)
        requires
            old(self).wf(),
        ensures
            final(self).wf(),
            final(self).image_paths() == old(self).image_paths(),
            final(self).label_paths() == old(self).label_paths(),
            final(self).index() == previous_index(old(self).index()),
    {
        if self.i > 0 {
            self.i = self.i - 1;
        }
    }

    /// One scan step toward the end (forward) or the start.
    fn step(&mut self, forward: bool) -> (r: Option<usize>)
        requires
            old(self).wf(),
        ensures
            final(self).wf(),
            final(self).image_paths() == old(self).image_paths(),
            final(self).label_paths() == old(self).label_paths(),
            self_stepped(old(self).index(), old(self).size(), forward, final(self).index(), r),
    {
        if forward {
            if self.i < self.data.len() - 1 {
                self.i = self.i + 1;
                Some(self.i)
            } else {
                None
            }
        } else {
            if self.i > 0 {
                self.i = self.i - 1;
                Some(self.i)
            } else {
                None
            }
        }
    }
}

/// The cursor went from `i` to `j` by one scan step that returned `r`: to the
/// index of the step, or nowhere at the boundary.
pub open spec fn self_stepped(i: nat, len: nat, forward: bool, j: nat, r: Option<usize>) -> bool {
    match scan_step(i, len, forward) {
        Some(k) => r == Some(k as usize) && j == k,
        None => r is None && j == i,
    }
}

impl<L: Label> Dataset<L> {
    /// Continues a scanning movement with the label set of the image at the
    /// cursor: it stops there if the label set has a box of one of the
    /// classes, and otherwise takes the next step as
    /// [`Dataset::after_save`] does.
    pub fn after_load(&mut self, movement: &DatasetMovement<L>, label: &Vec<YoloBB<L>>) -> (r:
        Option<usize>)
        requires
            old(self).wf(),
            movement.scans(),
        ensures
            final(self).wf(),
            final(self).image_paths() == old(self).image_paths(),
            final(self).label_paths() == old(self).label_paths(),
            if has_class(label@, movement.classes()) {
                r is None && final(self).index() == old(self).index()
            } else {
                self_stepped(
                    old(self).index(),
                    old(self).size(),
                    movement.forward(),
                    final(self).index(),
                    r,
                )
            },
    {
        match movement {
            DatasetMovement::NextContaining(classes) => {
                if label_has_class(label, classes) {
                    None
                } else {
                    self.step(true)
                }
            },
            DatasetMovement::PreviousContaining(classes) => {
                if label_has_class(label, classes) {
                    None
                } else {
                    self.step(false)
                }
            },
            _ => None,
        }
    }
}

/// Some box of the label set has the index of one of the classes.
pub fn label_has_class<L: Label>(label: &Vec<YoloBB<L>>, classes: &Vec<L>) -> (r: bool)
    ensures
        r == has_class(label@, classes@),
{
    let mut j: usize = 0;
    while j < label.len()
        invariant
            j <= label@.len(),
            forall|a: int, b: int|
                0 <= a < j && 0 <= b < classes@.len() ==> #[trigger] label@[a].class_num
                    != #[trigger] classes@[b].index(),
        decreases label@.len() - j,
    {
        let mut k: usize = 0;
        while k < classes.len()
            invariant
                j < label@.len(),
                k <= classes@.len(),
                forall|a: int, b: int|
                    0 <= a < j && 0 <= b < classes@.len() ==> #[trigger] label@[a].class_num
                        != #[trigger] classes@[b].index(),
                forall|b: int| 0 <= b < k ==> label@[j as int].class_num != #[trigger] classes@[b].index(),
            decreases classes@.len() - k,
        {
            if classes[k].to_usize() == label[j].class_num {
                return true;
            }
            k += 1;
        }
        j += 1;
    }
    false
}

/// The index reached by `n` moves `Next` from `i`.
pub open spec fn repeat_next(i: nat, len: nat, n: nat) -> nat
    decreases n,
{
    if n == 0 {
        i
    } else {
        next_index(repeat_next(i, len, (n - 1) as nat), len)
    }
}

/// The index reached by `n` moves `Previous` from `i`.
pub open spec fn repeat_previous(i: nat, n: nat) -> nat
    decreases n,
{
    if n == 0 {
        i
    } else {
        previous_index(repeat_previous(i, (n - 1) as nat))
    }
}

/// However often `Next` is repeated from an index of the dataset, the cursor
/// stays at or below the last index.
pub proof fn law_next_stays_in_range(i: nat, len: nat, n: nat)
    requires
        i < len,
    ensures
        i <= repeat_next(i, len, n) <= len - 1,
    decreases n,
{
    if n > 0 {
        law_next_stays_in_range(i, len, (n - 1) as nat);
    }
}

/// However often `Previous` is repeated, the cursor never goes below 0 and
/// never moves forward.
pub proof fn law_previous_stays_in_range(i: nat, n: nat)
    ensures
        0 <= repeat_previous(i, n) <= i,
    decreases n,
{
    if n > 0 {
        law_previous_stays_in_range(i, (n - 1) as nat);
    }
}

/// Where a forward scan from `i` stops, when the label set of image `k` has a
/// box of a wanted class exactly if `found[k]`.
pub open spec fn scan_forward_end(i: nat, len: nat, found: Seq<bool>) -> nat
    decreases len - i,
{
    match scan_step(i, len, true) {
        Some(k) => if found[k as int] {
            k
        } else {
            scan_forward_end(k, len, found)
        },
        None => i,
    }
}

/// Where a backward scan from `i` stops, when the label set of image `k` has
/// a box of a wanted class exactly if `found[k]`.
pub open spec fn scan_backward_end(i: nat, found: Seq<bool>) -> nat
    decreases i,
{
    match scan_step(i, i + 1, false) {
        Some(k) => if found[k as int] {
            k
        } else {
            scan_backward_end(k, found)
        },
        None => i,
    }
}

/// A forward scan stops within the dataset, and at the last image when no
/// label set matches.
pub proof fn law_scan_forward_terminates(i: nat, len: nat, found: Seq<bool>)
    requires
        i < len,
    ensures
        i <= scan_forward_end(i, len, found) < len,
        (forall|k: int| 0 <= k < found.len() ==> !found[k]) && found.len() == len
            ==> scan_forward_end(i, len, found) == len - 1,
    decreases len - i,
{
    if i + 1 < len {
        law_scan_forward_terminates(i + 1, len, found);
    }
}

/// A backward scan stops within the dataset, and at the first image when no
/// label set matches.
pub proof fn law_scan_backward_terminates(i: nat, found: Seq<bool>)
    ensures
        scan_backward_end(i, found) <= i,
        (forall|k: int| 0 <= k < found.len() ==> !found[k]) && found.len() > i
            ==> scan_backward_end(i, found) == 0,
    decreases i,
{
    if i > 0 {
        law_scan_backward_terminates((i - 1) as nat, found);
    }
}


/// From the cursor of any dataset, however often `Next` is repeated, the
/// cursor stays at or below the last index.
pub proof fn law_dataset_next_in_range<L>(d: Dataset<L>, n: nat)
    requires
        d.wf(),
    ensures
        d.index() <= repeat_next(d.index(), d.size(), n) <= d.size() - 1,
{
    law_next_stays_in_range(d.index(), d.size(), n);
}

/// From the cursor of any dataset, however often `Previous` is repeated, the
/// cursor stays at or above 0 and never moves forward.
pub proof fn law_dataset_previous_in_range<L>(d: Dataset<L>, n: nat)
    requires
        d.wf(),
    ensures
        0 <= repeat_previous(d.index(), n) <= d.index(),
{
    law_previous_stays_in_range(d.index(), n);
}

} // verus!
