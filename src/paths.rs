//! File names and label paths, on paths written with `/` separators.
use vstd::prelude::*;

use crate::text::chars_of;

verus! {

/// The position of the last `c` in `s`, or -1.
pub open spec fn last_index(s: Seq<char>, c: char) -> int
    decreases s.len(),
{
    if s.len() == 0 {
        -1
    } else if s.last() == c {
        s.len() - 1
    } else {
        last_index(s.drop_last(), c)
    }
}

pub proof fn lemma_last_index_range(s: Seq<char>, c: char)
    ensures
        -1 <= last_index(s, c) < s.len(),
        last_index(s, c) >= 0 ==> s[last_index(s, c)] == c,
    decreases s.len(),
{
    if s.len() > 0 && s.last() != c {
        lemma_last_index_range(s.drop_last(), c);
    }
}

/// The last component of a path: what follows its last `/`.
pub open spec fn file_name(path: Seq<char>) -> Seq<char> {
    path.skip(last_index(path, '/') + 1)
}

/// The directory part of a path, with its trailing `/`: what precedes the
/// file name.
pub open spec fn dir_part(path: Seq<char>) -> Seq<char> {
    path.take(last_index(path, '/') + 1)
}

/// A file name without its extension, as `Path::file_stem` gives it: the part
/// before the last `.`, unless that `.` is the first character or missing.
pub open spec fn stem(name: Seq<char>) -> Seq<char> {
    let k = last_index(name, '.');
    if k <= 0 {
        name
    } else {
        name.take(k)
    }
}

/// The file name of the label file of an image.
pub open spec fn label_file_name(image_name: Seq<char>) -> Seq<char> {
    stem(image_name) + seq!['.', 't', 'x', 't']
}

/// A path made of a directory and a file name, as `PathBuf::push` joins them.
pub open spec fn join_path(dir: Seq<char>, name: Seq<char>) -> Seq<char> {
    if dir.len() == 0 {
        name
    } else if dir.last() == '/' {
        dir + name
    } else {
        dir.push('/') + name
    }
}

/// The path of the label file of an image, in a label directory.
pub open spec fn label_path(labels_dir: Seq<char>, image_path: Seq<char>) -> Seq<char> {
    join_path(labels_dir, label_file_name(file_name(image_path)))
}

/// A path whose file name gets `prefix` in front.
pub open spec fn prefixed_path(path: Seq<char>, prefix: Seq<char>) -> Seq<char> {
    dir_part(path) + prefix + file_name(path)
}

/// The position of the last `c` in `s`, if any.
fn find_last(s: &Vec<char>, c: char) -> (r: Option<usize>)
    ensures
        match r {
            Some(p) => p == last_index(s@, c),
            None => last_index(s@, c) == -1,
        },
{
    let mut found: Option<usize> = None;
    let mut i: usize = 0;
    assert(s@.take(0) =~= Seq::<char>::empty());
    while i < s.len()
        invariant
            i <= s@.len(),
            match found {
                Some(p) => p == last_index(s@.take(i as int), c) && p < i,
                None => last_index(s@.take(i as int), c) == -1,
            },
        decreases s@.len() - i,
    {
        assert(s@.take(i + 1).drop_last() =~= s@.take(i as int));
        if s[i] == c {
            found = Some(i);
        }
        i += 1;
    }
    assert(s@.take(s@.len() as int) =~= s@);
    found
}

/// Where the file name of `path` starts, and where the last `.` of that name
/// stands relative to it (if anywhere).
fn split_points(path: &str) -> (r: (usize, Option<usize>))
    ensures
        r.0 == last_index(path@, '/') + 1,
        match r.1 {
            Some(p) => p == last_index(file_name(path@), '.'),
            None => last_index(file_name(path@), '.') == -1,
        },
{
    let cs = chars_of(path);
    let n = cs.len();
    proof {
        lemma_last_index_range(path@, '/');
    }
    let start = match find_last(&cs, '/') {
        Some(p) => p + 1,
        None => 0,
    };
    let mut name: Vec<char> = Vec::new();
    let mut i: usize = start;
    while i < cs.len()
        invariant
            cs@ == path@,
            start <= i <= cs@.len(),
            name@ == cs@.subrange(start as int, i as int),
        decreases cs@.len() - i,
    {
        name.push(cs[i]);
        i += 1;
        assert(name@ =~= cs@.subrange(start as int, i as int));
    }
    assert(name@ =~= file_name(path@));
    let dot = find_last(&name, '.');
    (start, dot)
}

/// The file name of a path.
pub fn file_name_of(path: &str) -> (r: String)
    ensures
        r@ == file_name(path@),
{
    let (start, _) = split_points(path);
    proof {
        lemma_last_index_range(path@, '/');
    }
    let n = path.unicode_len();
    String::from_str(path.substring_char(start, n))
}

/// The path of the label file of an image, in a label directory.
pub fn label_path_of(labels_dir: &str, image_path: &str) -> (r: String)
    ensures
        r@ == label_path(labels_dir@, image_path@),
{
    let (start, dot) = split_points(image_path);
    proof {
        lemma_last_index_range(image_path@, '/');
        lemma_last_index_range(file_name(image_path@), '.');
    }
    let n = image_path.unicode_len();
    let name = image_path.substring_char(start, n);
    assert(name@ == file_name(image_path@));
    let stem_end = match dot {
        Some(p) if p > 0 => start + p,
        _ => n,
    };
    let stem_str = image_path.substring_char(start, stem_end);
    assert(stem_str@ =~= stem(file_name(image_path@)));
    let mut r = String::from_str(labels_dir);
    let dir_len = labels_dir.unicode_len();
    if dir_len > 0 && labels_dir.get_char(dir_len - 1) != '/' {
        r.append("/");
    }
    r.append(stem_str);
    r.append(".txt");
    proof {
        reveal_strlit("/");
        reveal_strlit(".txt");
        assert(r@ =~= label_path(labels_dir@, image_path@));
    }
    r
}

/// A path whose file name gets `prefix` in front.
pub fn prefixed_path_of(path: &str, prefix: &str) -> (r: String)
    ensures
        r@ == prefixed_path(path@, prefix@),
{
    let (start, _) = split_points(path);
    proof {
        lemma_last_index_range(path@, '/');
    }
    let n = path.unicode_len();
    let mut r = String::from_str(path.substring_char(0, start));
    r.append(prefix);
    r.append(path.substring_char(start, n));
    assert(r@ =~= prefixed_path(path@, prefix@));
    r
}

} // verus!
