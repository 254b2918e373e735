//! Character-level building blocks of the label text format: splitting on a
//! separator, line breaking, and decimal numbers.
use vstd::prelude::*;
use vstd::std_specs::iter::IteratorSpec;

verus! {

broadcast use vstd::string::group_string_axioms;

/// The characters of `s`, in order.
pub fn chars_of(s: &str) -> (r: Vec<char>)
    ensures
        r@ == s@,
{
    let n = s.unicode_len();
    let mut r: Vec<char> = Vec::new();
    let mut it = s.chars();
    while r.len() < n
        invariant
            n == s@.len(),
            it.remaining() == s@.skip(r@.len() as int),
            r@ == s@.take(r@.len() as int),
            r@.len() <= s@.len(),
        decreases n - r@.len(),
    {
        assert(it.remaining().len() > 0);
        match it.next() {
            Some(c) => {
                r.push(c);
                assert(r@ =~= s@.take(r@.len() as int));
            },
            None => {
                // unreachable: characters remain
                assert(it.obeys_prophetic_iter_laws());
            },
        }
    }
    assert(r@ =~= s@);
    r
}


/// The pieces of `s` between occurrences of `sep`, as `str::split` with a
/// single character gives them (an empty `s` gives one empty piece).
pub open spec fn split(s: Seq<char>, sep: char) -> Seq<Seq<char>>
    decreases s.len(),
{
    if s.len() == 0 {
        seq![Seq::empty()]
    } else {
        let init = split(s.drop_last(), sep);
        if s.last() == sep {
            init.push(Seq::empty())
        } else {
            init.update(init.len() - 1, init.last().push(s.last()))
        }
    }
}

/// The pieces joined with `sep` between consecutive ones.
pub open spec fn join(pieces: Seq<Seq<char>>, sep: char) -> Seq<char>
    decreases pieces.len(),
{
    if pieces.len() == 0 {
        Seq::empty()
    } else if pieces.len() == 1 {
        pieces[0]
    } else {
        join(pieces.drop_last(), sep).push(sep) + pieces.last()
    }
}

/// `sep` does not occur in `s`.
pub open spec fn free_of(s: Seq<char>, sep: char) -> bool {
    forall|i: int| 0 <= i < s.len() ==> s[i] != sep
}

/// A line without the carriage return that ends it, if any.
pub open spec fn strip_cr(l: Seq<char>) -> Seq<char> {
    if l.len() > 0 && l.last() == '\r' {
        l.drop_last()
    } else {
        l
    }
}

/// The lines of a text as `str::lines` gives them: pieces ended by `\n`
/// (with a `\r` before it removed), then the rest of the text if it is not
/// empty.
pub open spec fn lines(text: Seq<char>) -> Seq<Seq<char>> {
    let parts = split(text, '\n');
    let body = parts.take(parts.len() - 1).map_values(|l: Seq<char>| strip_cr(l));
    if parts.last().len() == 0 {
        body
    } else {
        body.push(parts.last())
    }
}

/// Each line followed by a `\n`.
pub open spec fn text_of(ls: Seq<Seq<char>>) -> Seq<char>
    decreases ls.len(),
{
    if ls.len() == 0 {
        Seq::empty()
    } else {
        text_of(ls.drop_last()) + ls.last().push('\n')
    }
}

pub proof fn lemma_split_nonempty(s: Seq<char>, sep: char)
    ensures
        split(s, sep).len() >= 1,
    decreases s.len(),
{
    if s.len() > 0 {
        lemma_split_nonempty(s.drop_last(), sep);
    }
}

/// Appending text free of `sep` extends the last piece.
pub proof fn lemma_split_append(a: Seq<char>, b: Seq<char>, sep: char)
    requires
        free_of(b, sep),
    ensures
        split(a + b, sep) == split(a, sep).update(
            split(a, sep).len() - 1,
            split(a, sep).last() + b,
        ),
    decreases b.len(),
{
    lemma_split_nonempty(a, sep);
    if b.len() == 0 {
        assert(a + b =~= a);
        assert(split(a, sep).last() + b =~= split(a, sep).last());
        assert(split(a, sep).update(split(a, sep).len() - 1, split(a, sep).last())
            =~= split(a, sep));
    } else {
        let b0 = b.drop_last();
        assert(free_of(b0, sep));
        lemma_split_append(a, b0, sep);
        assert((a + b).drop_last() =~= a + b0);
        assert((a + b).last() == b.last());
        let p = split(a, sep);
        assert(split(a + b, sep) =~= p.update(p.len() - 1, p.last() + b0).update(
            p.len() - 1,
            (p.last() + b0).push(b.last()),
        ));
        assert((p.last() + b0).push(b.last()) =~= p.last() + b);
        assert(split(a + b, sep) =~= p.update(p.len() - 1, p.last() + b));
    }
}

/// Text free of `sep` is a single piece.
pub proof fn lemma_split_single(b: Seq<char>, sep: char)
    requires
        free_of(b, sep),
    ensures
        split(b, sep) == seq![b],
{
    lemma_split_append(Seq::empty(), b, sep);
    assert(Seq::<char>::empty() + b =~= b);
    assert(seq![Seq::<char>::empty()].update(0, Seq::<char>::empty() + b) =~= seq![b]);
}

/// Splitting pieces joined with `sep`, none of which holds `sep`, gives the
/// pieces back.
pub proof fn lemma_split_join(pieces: Seq<Seq<char>>, sep: char)
    requires
        pieces.len() >= 1,
        forall|i: int| 0 <= i < pieces.len() ==> free_of(#[trigger] pieces[i], sep),
    ensures
        split(join(pieces, sep), sep) == pieces,
    decreases pieces.len(),
{
    if pieces.len() == 1 {
        lemma_split_single(pieces[0], sep);
        assert(seq![pieces[0]] =~= pieces);
    } else {
        let init = pieces.drop_last();
        let a = join(init, sep).push(sep);
        assert(forall|i: int| 0 <= i < init.len() ==> init[i] == pieces[i]);
        lemma_split_join(init, sep);
        assert(pieces[pieces.len() - 1] == pieces.last());
        lemma_split_append(a, pieces.last(), sep);
        assert(a.drop_last() =~= join(init, sep));
        lemma_split_nonempty(join(init, sep), sep);
        let p = split(a, sep);
        assert(p =~= init.push(Seq::empty()));
        assert(p.update(p.len() - 1, p.last() + pieces.last()) =~= pieces);
    }
}

/// The text of lines is their join with `\n`, followed by one more `\n`.
pub proof fn lemma_text_of_join(ls: Seq<Seq<char>>)
    ensures
        text_of(ls) == join(ls.push(Seq::empty()), '\n'),
    decreases ls.len(),
{
    if ls.len() == 0 {
        assert(text_of(ls) =~= join(ls.push(Seq::empty()), '\n'));
    } else {
        let init = ls.drop_last();
        lemma_text_of_join(init);
        assert(ls.push(Seq::empty()).drop_last() =~= ls);
        assert(ls.drop_last() =~= init);
        if init.len() == 0 {
            assert(join(ls, '\n') == ls[0]);
            assert(text_of(ls) =~= join(ls.push(Seq::empty()), '\n'));
        } else {
            assert(init.push(Seq::<char>::empty()).drop_last() =~= init);
            assert(join(init.push(Seq::empty()), '\n') =~= join(init, '\n').push('\n'));
            assert(join(ls, '\n') =~= join(init, '\n').push('\n') + ls.last());
            assert(text_of(ls) =~= join(ls.push(Seq::empty()), '\n'));
        }
    }
}

/// Lines that hold no `\n` and do not end in `\r` are read back from their
/// text unchanged.
pub proof fn lemma_lines_text_of(ls: Seq<Seq<char>>)
    requires
        forall|i: int|
            0 <= i < ls.len() ==> free_of(#[trigger] ls[i], '\n') && strip_cr(ls[i]) == ls[i],
    ensures
        lines(text_of(ls)) == ls,
{
    let pieces = ls.push(Seq::empty());
    lemma_text_of_join(ls);
    assert forall|i: int| 0 <= i < pieces.len() implies free_of(#[trigger] pieces[i], '\n') by {
        if i < ls.len() {
            assert(pieces[i] == ls[i]);
        }
    }
    lemma_split_join(pieces, '\n');
    let parts = split(text_of(ls), '\n');
    assert(parts.take(parts.len() - 1) =~= ls);
    assert(parts.take(parts.len() - 1).map_values(|l: Seq<char>| strip_cr(l)) =~= ls);
}

/// A decimal digit.
pub open spec fn is_digit(c: char) -> bool {
    '0' <= c && c <= '9'
}

/// The value of a decimal digit.
pub open spec fn digit_value(c: char) -> nat {
    (c as int - '0' as int) as nat
}

/// The value of a run of decimal digits.
pub open spec fn digits_value(s: Seq<char>) -> nat
    decreases s.len(),
{
    if s.len() == 0 {
        0
    } else {
        digits_value(s.drop_last()) * 10 + digit_value(s.last())
    }
}

/// The digits of a number in decimal notation: an optional `+`, then at
/// least one digit.
pub open spec fn unsigned_digits(s: Seq<char>) -> Seq<char> {
    if s.len() > 0 && s[0] == '+' {
        s.drop_first()
    } else {
        s
    }
}

/// What `str::parse::<usize>` gives for `s`.
pub open spec fn parse_usize(s: Seq<char>) -> Option<nat> {
    let d = unsigned_digits(s);
    if d.len() > 0 && (forall|i: int| 0 <= i < d.len() ==> is_digit(#[trigger] d[i]))
        && digits_value(d) <= usize::MAX {
        Some(digits_value(d))
    } else {
        None
    }
}

/// The digit of a value below ten.
pub open spec fn digit_char(d: nat) -> char {
    seq!['0', '1', '2', '3', '4', '5', '6', '7', '8', '9'][d as int]
}

/// A number in decimal notation, without leading zeros.
pub open spec fn decimal(n: nat) -> Seq<char>
    decreases n,
{
    if n < 10 {
        seq![digit_char(n)]
    } else {
        decimal(n / 10).push(digit_char(n % 10))
    }
}

proof fn lemma_digit_char(d: nat)
    requires
        d < 10,
    ensures
        is_digit(digit_char(d)),
        digit_value(digit_char(d)) == d,
        digit_char(d) != '+',
{
}

/// The decimal notation of a number is a run of digits with that value.
pub proof fn lemma_decimal(n: nat)
    ensures
        decimal(n).len() > 0,
        decimal(n)[0] != '+',
        forall|i: int| 0 <= i < decimal(n).len() ==> is_digit(#[trigger] decimal(n)[i]),
        digits_value(decimal(n)) == n,
    decreases n,
{
    if n < 10 {
        lemma_digit_char(n);
        assert(decimal(n).drop_last() =~= Seq::<char>::empty());
        assert(digits_value(Seq::<char>::empty()) == 0);
        assert(digits_value(decimal(n)) == digit_value(digit_char(n)));
    } else {
        lemma_decimal(n / 10);
        lemma_digit_char(n % 10);
        assert(decimal(n).drop_last() =~= decimal(n / 10));
        assert(forall|i: int|
            0 <= i < decimal(n / 10).len() ==> decimal(n)[i] == decimal(n / 10)[i]);
        assert(decimal(n).last() == digit_char(n % 10));
        assert((n / 10) * 10 + n % 10 == n) by (nonlinear_arith);
        assert(digits_value(decimal(n)) == digits_value(decimal(n / 10)) * 10 + n % 10);
        assert(digits_value(decimal(n)) == n);
    }
}

/// Reading back the decimal notation of a `usize` gives the number.
pub proof fn lemma_parse_decimal(n: usize)
    ensures
        parse_usize(decimal(n as nat)) == Some(n as nat),
{
    lemma_decimal(n as nat);
}

/// A run of digits is worth at least as much as any of its prefixes.
proof fn lemma_digits_value_prefix(s: Seq<char>, k: int)
    requires
        0 <= k <= s.len(),
    ensures
        digits_value(s.take(k)) <= digits_value(s),
    decreases s.len() - k,
{
    if k < s.len() {
        lemma_digits_value_prefix(s, k + 1);
        assert(s.take(k + 1).drop_last() =~= s.take(k));
    } else {
        assert(s.take(k) =~= s);
    }
}


/// The view of a list of strings.
pub open spec fn strings_view(v: Seq<String>) -> Seq<Seq<char>> {
    v.map_values(|t: String| t@)
}

/// The pieces of `s` between occurrences of `sep`.
pub fn split_str(s: &str, sep: char) -> (r: Vec<String>)
    ensures
        strings_view(r@) == split(s@, sep),
{
    let cs = chars_of(s);
    let n = cs.len();
    let mut r: Vec<String> = Vec::new();
    let mut start: usize = 0;
    let mut i: usize = 0;
    assert(s@.take(0) =~= Seq::<char>::empty());
    assert(s@.subrange(0, 0) =~= Seq::<char>::empty());
    assert(strings_view(r@).push(s@.subrange(0, 0)) =~= split(s@.take(0), sep));
    while i < n
        invariant
            cs@ == s@,
            n == s@.len(),
            start <= i <= n,
            strings_view(r@).push(s@.subrange(start as int, i as int)) == split(
                s@.take(i as int),
                sep,
            ),
        decreases n - i,
    {
        let ghost prev = strings_view(r@);
        assert(s@.take(i + 1).drop_last() =~= s@.take(i as int));
        assert(s@.take(i + 1).last() == s@[i as int]);
        if cs[i] == sep {
            let piece = String::from_str(s.substring_char(start, i));
            r.push(piece);
            assert(strings_view(r@) =~= prev.push(s@.subrange(start as int, i as int)));
            start = i + 1;
            assert(s@.subrange(start as int, i + 1) =~= Seq::<char>::empty());
            assert(strings_view(r@).push(s@.subrange(start as int, i + 1)) =~= split(
                s@.take(i + 1),
                sep,
            ));
        } else {
            assert(s@.subrange(start as int, i + 1) =~= s@.subrange(start as int, i as int).push(
                s@[i as int],
            ));
            assert(strings_view(r@).push(s@.subrange(start as int, i + 1)) =~= split(
                s@.take(i + 1),
                sep,
            ));
        }
        i += 1;
    }
    let last = String::from_str(s.substring_char(start, n));
    let ghost prev = strings_view(r@);
    r.push(last);
    assert(strings_view(r@) =~= prev.push(s@.subrange(start as int, n as int)));
    assert(s@.take(n as int) =~= s@);
    r
}

/// The lines of a text, as `str::lines` gives them.
pub fn lines_of(text: &str) -> (r: Vec<String>)
    ensures
        strings_view(r@) == lines(text@),
{
    let parts = split_str(text, '\n');
    proof {
        lemma_split_nonempty(text@, '\n');
    }
    let ghost pv = split(text@, '\n');
    let count = parts.len() - 1;
    let mut r: Vec<String> = Vec::new();
    let mut k: usize = 0;
    while k < count
        invariant
            strings_view(parts@) == pv,
            pv.len() == count + 1,
            k <= count,
            strings_view(r@) == pv.take(k as int).map_values(|l: Seq<char>| strip_cr(l)),
        decreases count - k,
    {
        let part = &parts[k];
        assert(part@ == pv[k as int]);
        let len = part.as_str().unicode_len();
        let line = if len > 0 && part.as_str().get_char(len - 1) == '\r' {
            String::from_str(part.as_str().substring_char(0, len - 1))
        } else {
            part.clone()
        };
        assert(line@ =~= strip_cr(pv[k as int]));
        let ghost prev = strings_view(r@);
        r.push(line);
        assert(strings_view(r@) =~= prev.push(line@));
        assert(pv.take(k + 1).map_values(|l: Seq<char>| strip_cr(l)) =~= pv.take(
            k as int,
        ).map_values(|l: Seq<char>| strip_cr(l)).push(strip_cr(pv[k as int])));
        k += 1;
    }
    let last = &parts[count];
    assert(last@ == pv.last());
    if last.as_str().unicode_len() > 0 {
        let ghost prev = strings_view(r@);
        r.push(last.clone());
        assert(strings_view(r@) =~= prev.push(last@));
    }
    r
}

/// The value of `s` read as an unsigned decimal number, if it is one that
/// fits in a `usize`.
pub fn parse_usize_str(s: &str) -> (r: Option<usize>)
    ensures
        match r {
            Some(v) => parse_usize(s@) == Some(v as nat),
            None => parse_usize(s@) is None,
        },
{
    let cs = chars_of(s);
    let n = cs.len();
    let first: usize = if n > 0 && cs[0] == '+' {
        1
    } else {
        0
    };
    let ghost d = unsigned_digits(s@);
    assert(d =~= s@.skip(first as int));
    if first == n {
        return None;
    }
    let mut value: usize = 0;
    let mut i: usize = first;
    while i < n
        invariant
            cs@ == s@,
            n == s@.len(),
            d == s@.skip(first as int),
            d == unsigned_digits(s@),
            first <= i <= n,
            value == digits_value(d.take(i - first)),
            forall|j: int| 0 <= j < i - first ==> is_digit(#[trigger] d[j]),
        decreases n - i,
    {
        let c = cs[i];
        assert(d[i - first] == c);
        if !('0' <= c && c <= '9') {
            assert(!is_digit(d[i - first]));
            return None;
        }
        let digit = (c as u32 - '0' as u32) as usize;
        assert(d.take(i - first + 1).drop_last() =~= d.take(i - first));
        assert(digits_value(d.take(i - first + 1)) == value * 10 + digit);
        if value > (usize::MAX - digit) / 10 {
            proof {
                assert(value * 10 + digit > usize::MAX) by (nonlinear_arith)
                    requires
                        value > (usize::MAX - digit) / 10,
                        digit <= 9,
                ;
                lemma_digits_value_prefix(d, i - first + 1);
                assert(digits_value(d) > usize::MAX);
            }
            return None;
        }
        assert(value * 10 + digit <= usize::MAX) by (nonlinear_arith)
            requires
                value <= (usize::MAX - digit) / 10,
                digit <= 9,
        ;
        value = value * 10 + digit;
        i += 1;
    }
    assert(d.take(n - first) =~= d);
    Some(value)
}

/// The one-character text of a digit.
fn digit_str(d: usize) -> (r: &'static str)
    requires
        d < 10,
    ensures
        r@ == seq![digit_char(d as nat)],
{
    proof {
        reveal_strlit("0");
        reveal_strlit("1");
        reveal_strlit("2");
        reveal_strlit("3");
        reveal_strlit("4");
        reveal_strlit("5");
        reveal_strlit("6");
        reveal_strlit("7");
        reveal_strlit("8");
        reveal_strlit("9");
    }
    let r = if d == 0 {
        "0"
    } else if d == 1 {
        "1"
    } else if d == 2 {
        "2"
    } else if d == 3 {
        "3"
    } else if d == 4 {
        "4"
    } else if d == 5 {
        "5"
    } else if d == 6 {
        "6"
    } else if d == 7 {
        "7"
    } else if d == 8 {
        "8"
    } else {
        "9"
    };
    assert(r@ =~= seq![digit_char(d as nat)]);
    r
}

/// Appends the decimal notation of `n` to `out`.
pub fn push_decimal(out: &mut String, n: usize)
    ensures
        final(out)@ == old(out)@ + decimal(n as nat),
    decreases n,
{
    if n >= 10 {
        push_decimal(out, n / 10);
    }
    out.append(digit_str(n % 10));
    assert(n >= 10 ==> (old(out)@ + decimal(n as nat / 10)).push(digit_char(n as nat % 10))
        =~= old(out)@ + decimal(n as nat));
    assert(n < 10 ==> old(out)@ + seq![digit_char(n as nat % 10)] =~= old(out)@ + decimal(
        n as nat,
    ));
}


/// A sign character.
pub open spec fn is_sign(c: char) -> bool {
    c == '+' || c == '-'
}

/// The text spells a word whose letters are given in lower case and in
/// upper case, each letter in either case.
pub open spec fn spells(t: Seq<char>, lower: Seq<char>, upper: Seq<char>) -> bool {
    &&& t.len() == lower.len()
    &&& t.len() == upper.len()
    &&& forall|i: int| 0 <= i < t.len() ==> t[i] == lower[i] || t[i] == upper[i]
}

/// Digits with at most one `.`, and at least one digit.
pub open spec fn is_mantissa(m: Seq<char>) -> bool {
    &&& forall|i: int| 0 <= i < m.len() ==> is_digit(#[trigger] m[i]) || m[i] == '.'
    &&& forall|i: int, j: int| 0 <= i < j < m.len() ==> !(#[trigger] m[i] == '.' && #[trigger] m[j] == '.')
    &&& exists|i: int| 0 <= i < m.len() && is_digit(#[trigger] m[i])
}

/// The text without its leading sign, if it has one.
pub open spec fn drop_sign(s: Seq<char>) -> Seq<char> {
    if s.len() > 0 && is_sign(s[0]) {
        s.drop_first()
    } else {
        s
    }
}

/// An optional sign, then at least one digit.
pub open spec fn is_exponent(x: Seq<char>) -> bool {
    let d = drop_sign(x);
    d.len() > 0 && forall|i: int| 0 <= i < d.len() ==> is_digit(#[trigger] d[i])
}

/// A mantissa, optionally followed by `e` or `E` and an exponent.
pub open spec fn is_number(t: Seq<char>) -> bool {
    is_mantissa(t) || exists|k: int|
        0 <= k < t.len() && (t[k] == 'e' || t[k] == 'E') && is_mantissa(#[trigger] t.take(k))
            && is_exponent(t.skip(k + 1))
}

/// A literal that `str::parse::<f32>` accepts: an optional sign, then
/// `inf`, `infinity` or `nan` in any case, or a decimal number with an
/// optional exponent.
pub open spec fn is_float_literal(s: Seq<char>) -> bool {
    let t = drop_sign(s);
    spells(t, seq!['i', 'n', 'f'], seq!['I', 'N', 'F']) || spells(
        t,
        seq!['i', 'n', 'f', 'i', 'n', 'i', 't', 'y'],
        seq!['I', 'N', 'F', 'I', 'N', 'I', 'T', 'Y'],
    ) || spells(t, seq!['n', 'a', 'n'], seq!['N', 'A', 'N']) || is_number(t)
}

/// The characters of `t` from `from` on spell a word, each letter as in
/// `lower` or as in `upper`.
fn spells_word(t: &Vec<char>, from: usize, lower: &str, upper: &str) -> (r: bool)
    requires
        from <= t@.len(),
    ensures
        r == spells(t@.skip(from as int), lower@, upper@),
{
    let lw = chars_of(lower);
    let up = chars_of(upper);
    if t.len() - from != lw.len() || lw.len() != up.len() {
        return false;
    }
    let ghost u = t@.skip(from as int);
    let n = t.len();
    let mut i: usize = 0;
    while i < lw.len()
        invariant
            n == t@.len(),
            lw@ == lower@,
            up@ == upper@,
            u == t@.skip(from as int),
            from + lw@.len() == t@.len(),
            lw@.len() == up@.len(),
            i <= lw@.len(),
            forall|k: int| 0 <= k < i ==> u[k] == lw@[k] || u[k] == up@[k],
        decreases lw@.len() - i,
    {
        let c = t[from + i];
        assert(u[i as int] == c);
        if !(c == lw[i] || c == up[i]) {
            return false;
        }
        i += 1;
    }
    true
}

/// The characters of `t` in `from..to` form a mantissa.
fn mantissa_at(t: &Vec<char>, from: usize, to: usize) -> (r: bool)
    requires
        from <= to <= t@.len(),
    ensures
        r == is_mantissa(t@.subrange(from as int, to as int)),
{
    let ghost m = t@.subrange(from as int, to as int);
    let mut dots: usize = 0;
    let mut digits: bool = false;
    let mut i: usize = from;
    while i < to
        invariant
            m == t@.subrange(from as int, to as int),
            from <= i <= to <= t@.len(),
            forall|k: int| 0 <= k < i - from ==> is_digit(#[trigger] m[k]) || m[k] == '.',
            dots <= 1,
            dots == 0 ==> forall|k: int| 0 <= k < i - from ==> m[k] != '.',
            dots == 1 ==> exists|k: int| 0 <= k < i - from && m[k] == '.',
            forall|a: int, b: int|
                0 <= a < b < i - from ==> !(#[trigger] m[a] == '.' && #[trigger] m[b] == '.'),
            digits <==> exists|k: int| 0 <= k < i - from && is_digit(#[trigger] m[k]),
        decreases to - i,
    {
        let c = t[i];
        assert(m[i - from] == c);
        if c == '.' {
            if dots == 1 {
                let ghost a = choose|k: int| 0 <= k < i - from && m[k] == '.';
                assert(!(m[a] == '.' && m[i - from] == '.') ==> false);
                return false;
            }
            dots = 1;
        } else if '0' <= c && c <= '9' {
            digits = true;
        } else {
            assert(!(is_digit(m[i - from]) || m[i - from] == '.'));
            return false;
        }
        i += 1;
    }
    digits
}

/// The characters of `t` from `from` on form an exponent.
fn exponent_at(t: &Vec<char>, from: usize) -> (r: bool)
    requires
        from <= t@.len(),
    ensures
        r == is_exponent(t@.skip(from as int)),
{
    let ghost x = t@.skip(from as int);
    let start = if from < t.len() && (t[from] == '+' || t[from] == '-') {
        from + 1
    } else {
        from
    };
    let ghost d = t@.skip(start as int);
    assert(x.len() > 0 ==> x[0] == t@[from as int]);
    assert(d =~= if x.len() > 0 && is_sign(x[0]) {
        x.drop_first()
    } else {
        x
    });
    if start == t.len() {
        return false;
    }
    let mut i: usize = start;
    while i < t.len()
        invariant
            d == t@.skip(start as int),
            x == t@.skip(from as int),
            d == drop_sign(x),
            start <= i <= t@.len(),
            forall|k: int| 0 <= k < i - start ==> is_digit(#[trigger] d[k]),
        decreases t@.len() - i,
    {
        assert(d[i - start] == t@[i as int]);
        if !('0' <= t[i] && t[i] <= '9') {
            assert(!is_digit(d[i - start]));
            return false;
        }
        i += 1;
    }
    true
}

/// `s` is a literal that `str::parse::<f32>` accepts.
pub fn float_literal(s: &str) -> (r: bool)
    ensures
        r == is_float_literal(s@),
{
    let t = chars_of(s);
    let n = t.len();
    let from: usize = if n > 0 && (t[0] == '+' || t[0] == '-') {
        1
    } else {
        0
    };
    let ghost u = t@.skip(from as int);
    assert(u =~= if s@.len() > 0 && is_sign(s@[0]) {
        s@.drop_first()
    } else {
        s@
    });
    proof {
        reveal_strlit("inf");
        reveal_strlit("INF");
        reveal_strlit("infinity");
        reveal_strlit("INFINITY");
        reveal_strlit("nan");
        reveal_strlit("NAN");
        assert("inf"@ =~= seq!['i', 'n', 'f']);
        assert("INF"@ =~= seq!['I', 'N', 'F']);
        assert("infinity"@ =~= seq!['i', 'n', 'f', 'i', 'n', 'i', 't', 'y']);
        assert("INFINITY"@ =~= seq!['I', 'N', 'F', 'I', 'N', 'I', 'T', 'Y']);
        assert("nan"@ =~= seq!['n', 'a', 'n']);
        assert("NAN"@ =~= seq!['N', 'A', 'N']);
    }
    if spells_word(&t, from, "inf", "INF") || spells_word(&t, from, "infinity", "INFINITY")
        || spells_word(&t, from, "nan", "NAN") {
        return true;
    }
    // the first exponent mark, if any
    let mut k: usize = from;
    while k < n && t[k] != 'e' && t[k] != 'E'
        invariant
            from <= k <= n,
            n == t@.len(),
            forall|j: int| from <= j < k ==> t@[j] != 'e' && t@[j] != 'E',
        decreases n - k,
    {
        k += 1;
    }
    let r = if k == n {
        mantissa_at(&t, from, n)
    } else {
        mantissa_at(&t, from, k) && exponent_at(&t, k + 1)
    };
    proof {
        let e = k - from;
        assert(t@.subrange(from as int, n as int) =~= u);
        if k < n {
            assert(u[e] == t@[k as int]);
            assert(t@.subrange(from as int, k as int) =~= u.take(e));
            assert(t@.skip(k + 1) =~= u.skip(e + 1));
            // the mantissa holds no exponent mark
            assert(!is_mantissa(u)) by {
                assert(!(is_digit(u[e]) || u[e] == '.'));
            }
            assert forall|j: int|
                0 <= j < u.len() && (u[j] == 'e' || u[j] == 'E') && is_mantissa(
                    #[trigger] u.take(j),
                ) implies j == e by {
                if j > e {
                    assert(u.take(j)[e] == u[e]);
                    assert(!(is_digit(u.take(j)[e]) || u.take(j)[e] == '.'));
                } else if j < e {
                    assert(t@[from + j] == u[j]);
                }
            }
        } else {
            assert forall|j: int| 0 <= j < u.len() implies !(u[j] == 'e' || u[j] == 'E') by {
                assert(t@[from + j] == u[j]);
            }
        }
    }
    r
}

} // verus!
