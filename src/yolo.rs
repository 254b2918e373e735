//! Normalized box records and their text form: one record per line,
//! `class_index center_x center_y width height` separated by single spaces.
//!
//! The four fractions are kept as the decimal text they are written in;
//! turning them into numbers, and pixel rectangles into them, is left to the
//! caller that knows the image size.
use std::marker::PhantomData;
use vstd::prelude::*;

use crate::label::Label;
use crate::text::{
    decimal, float_literal, free_of, is_float_literal, join, lemma_decimal, lemma_lines_text_of,
    lemma_parse_decimal, lemma_split_join, lines, lines_of, parse_usize, parse_usize_str,
    push_decimal, split, split_str, strings_view, strip_cr, text_of,
};

verus! {

/// Why a label line could not be read.
#[derive(Debug, Clone, Copy, PartialEq, Eq, Structural)]
pub enum FormatError {
    /// The line has fewer than five space-separated fields.
    MissingFields,
    /// The first field is not an unsigned decimal number that fits a `usize`.
    BadClassIndex,
    /// One of the four fractions is not a floating-point number.
    BadCoordinate,
}

/// One normalized box: a class index and the center and size of the box as
/// fractions of the image width and height, each kept as its decimal text.
#[derive(Debug)]
pub struct YoloBB<L> {
    pub class_num: usize,
    pub x: String,
    pub y: String,
    pub w: String,
    pub h: String,
    pub label: PhantomData<L>,
}

impl<L> Clone for YoloBB<L> {
    fn clone(&self) -> Self {
        YoloBB {
            class_num: self.class_num,
            x: self.x.clone(),
            y: self.y.clone(),
            w: self.w.clone(),
            h: self.h.clone(),
            label: PhantomData,
        }
    }
}

/// The boxes of one image, in file order.
pub type YoloLabel<L> = Vec<YoloBB<L>>;

/// A fraction that can be written on a line and read back unchanged: a
/// floating-point literal with no space or line break in it.
pub open spec fn plain_field(t: Seq<char>) -> bool {
    is_float_literal(t) && free_of(t, ' ') && free_of(t, '\n') && free_of(t, '\r')
}

/// The error that reading `line` gives, if any.
pub open spec fn line_error(line: Seq<char>) -> Option<FormatError> {
    let t = split(line, ' ');
    if t.len() < 5 {
        Some(FormatError::MissingFields)
    } else if parse_usize(t[0]) is None {
        Some(FormatError::BadClassIndex)
    } else if !(is_float_literal(t[1]) && is_float_literal(t[2]) && is_float_literal(t[3])
        && is_float_literal(t[4])) {
        Some(FormatError::BadCoordinate)
    } else {
        None
    }
}

impl<L> YoloBB<L> {
    /// The five fields of the record, as written.
    pub open spec fn fields(self) -> Seq<Seq<char>> {
        seq![decimal(self.class_num as nat), self.x@, self.y@, self.w@, self.h@]
    }

    /// The text line of the record.
    pub open spec fn line(self) -> Seq<char> {
        join(self.fields(), ' ')
    }

    /// The record holds what reading `line` gives.
    pub open spec fn read_from(self, line: Seq<char>) -> bool {
        let t = split(line, ' ');
        &&& t.len() >= 5
        &&& parse_usize(t[0]) == Some(self.class_num as nat)
        &&& self.x@ == t[1]
        &&& self.y@ == t[2]
        &&& self.w@ == t[3]
        &&& self.h@ == t[4]
    }

    /// Both records have the same class index and the same fraction texts.
    pub open spec fn same_record(self, other: YoloBB<L>) -> bool {
        &&& self.class_num == other.class_num
        &&& self.x@ == other.x@
        &&& self.y@ == other.y@
        &&& self.w@ == other.w@
        &&& self.h@ == other.h@
    }

    /// Every fraction is a floating-point literal that can be written on a
    /// line and read back unchanged.
    pub open spec fn plain(self) -> bool {
        plain_field(self.x@) && plain_field(self.y@) && plain_field(self.w@) && plain_field(
            self.h@,
        )
    }

    pub fn new(class_num: usize, x: String, y: String, w: String, h: String) -> (r: Self)
        ensures
            r.class_num == class_num,
            r.x@ == x@,
            r.y@ == y@,
            r.w@ == w@,
            r.h@ == h@,
    {
        YoloBB { class_num, x, y, w, h, label: PhantomData }
    }

    /// Reads one label line.
    pub fn from_str(s: &str) -> (r: Result<Self, FormatError>)
        ensures
            match r {
                Ok(bb) => line_error(s@) is None && bb.read_from(s@),
                Err(e) => line_error(s@) == Some(e),
            },
    {
        let parts = split_str(s, ' ');
        if parts.len() < 5 {
            return Err(FormatError::MissingFields);
        }
        assert(parts@[0]@ == split(s@, ' ')[0]);
        let class_num = match parse_usize_str(parts[0].as_str()) {
            Some(v) => v,
            None => {
                return Err(FormatError::BadClassIndex);
            },
        };
        assert(parts@[1]@ == split(s@, ' ')[1]);
        assert(parts@[2]@ == split(s@, ' ')[2]);
        assert(parts@[3]@ == split(s@, ' ')[3]);
        assert(parts@[4]@ == split(s@, ' ')[4]);
        if !(float_literal(parts[1].as_str()) && float_literal(parts[2].as_str()) && float_literal(
            parts[3].as_str(),
        ) && float_literal(parts[4].as_str())) {
            return Err(FormatError::BadCoordinate);
        }
        Ok(YoloBB {
            class_num,
            x: parts[1].clone(),
            y: parts[2].clone(),
            w: parts[3].clone(),
            h: parts[4].clone(),
            label: PhantomData,
        })
    }

    /// The text line of the record, without a line break.
    pub fn as_string(&self) -> (r: String)
        ensures
            r@ == self.line(),
    {
        let mut r = String::new();
        push_decimal(&mut r, self.class_num);
        r.append(" ");
        r.append(self.x.as_str());
        r.append(" ");
        r.append(self.y.as_str());
        r.append(" ");
        r.append(self.w.as_str());
        r.append(" ");
        r.append(self.h.as_str());
        proof {
            reveal_strlit(" ");
            lemma_join5(self.fields());
            assert(r@ =~= self.line());
        }
        r
    }
}

impl<L: Label> YoloBB<L> {
    /// A record of the given class.
    pub fn with_class(class: L, x: String, y: String, w: String, h: String) -> (r: Self)
        ensures
            r.class_num == class.index(),
            r.x@ == x@,
            r.y@ == y@,
            r.w@ == w@,
            r.h@ == h@,
    {
        YoloBB { class_num: class.to_usize(), x, y, w, h, label: PhantomData }
    }

    /// The class of the record.
    pub fn class(&self) -> (r: L)
        requires
            self.class_num < L::class_count(),
        ensures
            r == L::of_index(self.class_num as nat),
            r.index() == self.class_num,
    {
        L::from_usize(self.class_num)
    }
}

/// The lines of a list of records.
pub open spec fn label_lines<L>(label: Seq<YoloBB<L>>) -> Seq<Seq<char>> {
    label.map_values(|b: YoloBB<L>| b.line())
}

/// The text of a list of records: each line followed by a line break.
pub fn label_text<L>(label: &Vec<YoloBB<L>>) -> (r: String)
    ensures
        r@ == text_of(label_lines(label@)),
{
    let mut r = String::new();
    let mut i: usize = 0;
    assert(label_lines(label@.take(0)) =~= Seq::<Seq<char>>::empty());
    while i < label.len()
        invariant
            i <= label@.len(),
            r@ == text_of(label_lines(label@.take(i as int))),
        decreases label@.len() - i,
    {
        let line = label[i].as_string();
        r.append(line.as_str());
        r.append("\n");
        proof {
            reveal_strlit("\n");
            let before = label_lines(label@.take(i as int));
            let after = label_lines(label@.take(i + 1));
            assert(after.drop_last() =~= before);
            assert(after.last() == label@[i as int].line());
            assert(r@ =~= text_of(after));
        }
        i += 1;
    }
    assert(label@.take(label@.len() as int) =~= label@);
    r
}

/// Reads the text of a label file: one record per line.
pub fn parse_label<L>(text: &str) -> (r: Result<Vec<YoloBB<L>>, FormatError>)
    ensures
        match r {
            Ok(v) => {
                &&& v@.len() == lines(text@).len()
                &&& forall|i: int|
                    0 <= i < v@.len() ==> line_error(lines(text@)[i]) is None
                        && (#[trigger] v@[i]).read_from(lines(text@)[i])
            },
            Err(e) => exists|k: int|
                0 <= k < lines(text@).len() && line_error(lines(text@)[k]) == Some(e) && forall|
                    j: int,
                | 0 <= j < k ==> line_error(#[trigger] lines(text@)[j]) is None,
        },
{
    let ls = lines_of(text);
    let ghost lv = lines(text@);
    let mut v: Vec<YoloBB<L>> = Vec::new();
    let mut i: usize = 0;
    while i < ls.len()
        invariant
            strings_view(ls@) == lv,
            lv == lines(text@),
            i <= ls@.len(),
            v@.len() == i,
            forall|j: int| 0 <= j < i ==> line_error(#[trigger] lv[j]) is None,
            forall|j: int| 0 <= j < i ==> (#[trigger] v@[j]).read_from(lv[j]),
        decreases ls@.len() - i,
    {
        assert(ls@[i as int]@ == lv[i as int]);
        match YoloBB::from_str(ls[i].as_str()) {
            Ok(bb) => {
                let ghost before = v@;
                v.push(bb);
                assert(forall|j: int| 0 <= j < i ==> v@[j] == before[j]);
            },
            Err(e) => {
                return Err(e);
            },
        }
        i += 1;
    }
    Ok(v)
}

/// Writing records whose fractions are floating-point literals with no space
/// or line break, and reading the text back, gives records with the same class indices and the
/// same fraction texts, in the same order.
pub proof fn law_text_round_trip<L>(label: Seq<YoloBB<L>>)
    requires
        forall|i: int| 0 <= i < label.len() ==> (#[trigger] label[i]).plain(),
    ensures
        lines(text_of(label_lines(label))) == label_lines(label),
        forall|i: int|
            0 <= i < label.len() ==> line_error(#[trigger] label_lines(label)[i]) is None,
        forall|i: int, b: YoloBB<L>|
            0 <= i < label.len() ==> (#[trigger] b.read_from(label_lines(label)[i])
                <==> b.same_record(label[i])),
{
    let ls = label_lines(label);
    assert forall|i: int| 0 <= i < label.len() implies {
        &&& split(#[trigger] ls[i], ' ') == label[i].fields()
        &&& free_of(ls[i], '\n')
        &&& strip_cr(ls[i]) == ls[i]
    } by {
        line_facts(label[i]);
    }
    lemma_lines_text_of(ls);
    assert forall|i: int| 0 <= i < label.len() implies line_error(
        #[trigger] label_lines(label)[i],
    ) is None by {
        line_facts(label[i]);
        lemma_parse_decimal(label[i].class_num);
    }
    assert forall|i: int, b: YoloBB<L>| 0 <= i < label.len() implies (#[trigger] b.read_from(
        label_lines(label)[i],
    ) <==> b.same_record(label[i])) by {
        line_facts(label[i]);
        lemma_parse_decimal(label[i].class_num);
    }
}

/// Five pieces joined with spaces.
proof fn lemma_join5(f: Seq<Seq<char>>)
    requires
        f.len() == 5,
    ensures
        join(f, ' ') == f[0] + seq![' '] + f[1] + seq![' '] + f[2] + seq![' '] + f[3] + seq![' ']
            + f[4],
{
    let f1 = seq![f[0]];
    let f2 = seq![f[0], f[1]];
    let f3 = seq![f[0], f[1], f[2]];
    let f4 = seq![f[0], f[1], f[2], f[3]];
    assert(f2.drop_last() =~= f1);
    assert(f3.drop_last() =~= f2);
    assert(f4.drop_last() =~= f3);
    assert(f.drop_last() =~= f4);
    assert(join(f1, ' ') == f[0]);
    assert(join(f2, ' ') == f[0].push(' ') + f[1]);
    assert(join(f3, ' ') == join(f2, ' ').push(' ') + f[2]);
    assert(join(f4, ' ') == join(f3, ' ').push(' ') + f[3]);
    assert(join(f, ' ') == join(f4, ' ').push(' ') + f[4]);
    assert(join(f, ' ') =~= f[0] + seq![' '] + f[1] + seq![' '] + f[2] + seq![' '] + f[3] + seq![
        ' ',
    ] + f[4]);
}

/// The line of a plain record splits back into its fields, and holds no line
/// break and no trailing carriage return.
proof fn line_facts<L>(b: YoloBB<L>)
    requires
        b.plain(),
    ensures
        split(b.line(), ' ') == b.fields(),
        free_of(b.line(), '\n'),
        strip_cr(b.line()) == b.line(),
{
    let f = b.fields();
    lemma_decimal(b.class_num as nat);
    assert(free_of(f[0], ' ') && free_of(f[0], '\n') && free_of(f[0], '\r'));
    assert(forall|i: int| 0 <= i < f.len() ==> free_of(#[trigger] f[i], ' '));
    lemma_split_join(f, ' ');
    lemma_join5(f);
    let l = b.line();
    assert(l =~= f[0] + seq![' '] + f[1] + seq![' '] + f[2] + seq![' '] + f[3] + seq![' ']
        + f[4]);
    assert(free_of(l, '\n'));
    if l.len() > 0 {
        assert(l.last() != '\r');
    }
}


/// The text of an empty label set is empty, and an empty text has no lines,
/// so it reads back as an empty label set.
pub proof fn law_empty_label<L>()
    ensures
        text_of(label_lines(Seq::<YoloBB<L>>::empty())) == Seq::<char>::empty(),
        lines(Seq::<char>::empty()) == Seq::<Seq<char>>::empty(),
{
    assert(label_lines(Seq::<YoloBB<L>>::empty()) =~= Seq::<Seq<char>>::empty());
    assert(split(Seq::<char>::empty(), '\n') == seq![Seq::<char>::empty()]);
    assert(lines(Seq::<char>::empty()) =~= Seq::<Seq<char>>::empty());
}

} // verus!
