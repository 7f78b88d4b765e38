//! Text as sequences of characters: searching, replacing, splitting and
//! reading decimal numbers.

use vstd::prelude::*;
use vstd::string::*;

verus! {

/// The characters of `s`, one element each.
pub fn chars_of(s: &str) -> (v: Vec<char>)
    ensures
        v@ == s@,
{
    broadcast use vstd::string::group_string_axioms;

    let mut v: Vec<char> = Vec::new();
    for c in it: s.chars()
        invariant
            it.seq() == s@,
            v@ == it.seq().take(it.index()),
    {
        v.push(c);
    }
    assert(s@.take(s@.len() as int) == s@);
    v
}

/// `p` stands in `s` at position `i`.
pub open spec fn occurs_at(s: Seq<char>, p: Seq<char>, i: int) -> bool {
    0 <= i && i + p.len() <= s.len() && s.subrange(i, i + p.len()) == p
}

/// `p` stands somewhere in `s`.
pub open spec fn contains_text(s: Seq<char>, p: Seq<char>) -> bool {
    exists|i: int| occurs_at(s, p, i)
}

/// `s` with every occurrence of `from` replaced by `to`, found from the left
/// and without overlap. An empty `from` occurs before every character and at
/// the end.
pub open spec fn replace_all(s: Seq<char>, from: Seq<char>, to: Seq<char>) -> Seq<char>
    decreases s.len(),
{
    if from.len() == 0 {
        if s.len() == 0 {
            to
        } else {
            to + seq![s[0]] + replace_all(s.skip(1), from, to)
        }
    } else if s.len() < from.len() {
        s
    } else if occurs_at(s, from, 0) {
        to + replace_all(s.skip(from.len() as int), from, to)
    } else {
        seq![s[0]] + replace_all(s.skip(1), from, to)
    }
}

/// A text in which `from` does not occur is left as it is.
pub proof fn lemma_replace_all_absent(s: Seq<char>, from: Seq<char>, to: Seq<char>)
    requires
        !contains_text(s, from),
    ensures
        replace_all(s, from, to) == s,
    decreases s.len(),
{
    if from.len() == 0 {
        assert(s.subrange(0, 0) =~= from);
        assert(occurs_at(s, from, 0));
    } else if s.len() < from.len() {
    } else {
        assert(!occurs_at(s, from, 0));
        let t = s.skip(1);
        assert forall|i: int| !occurs_at(t, from, i) by {
            if occurs_at(t, from, i) {
                assert(s.subrange(i + 1, i + 1 + from.len()) =~= t.subrange(i, i + from.len()));
                assert(occurs_at(s, from, i + 1));
            }
        }
        lemma_replace_all_absent(t, from, to);
        assert(seq![s[0]] + t =~= s);
    }
}

/// Whether `p` stands in `s` at position `i`.
pub fn occurs_at_position(s: &Vec<char>, p: &Vec<char>, i: usize) -> (b: bool)
    ensures
        b == occurs_at(s@, p@, i as int),
{
    let n = s.len();
    let m = p.len();
    if i > n || m > n - i {
        return false;
    }
    let mut j: usize = 0;
    while j < m
        invariant
            j <= m,
            m == p@.len(),
            n == s@.len(),
            i + m <= n,
            forall|k: int| 0 <= k < j ==> s@[i + k] == p@[k],
        decreases m - j,
    {
        if s[i + j] != p[j] {
            assert(s@.subrange(i as int, i + m)[j as int] == s@[i + j]);
            return false;
        }
        j = j + 1;
    }
    assert(s@.subrange(i as int, i + m) =~= p@);
    true
}

/// Whether `p` stands somewhere in `s`.
pub fn text_contains(s: &str, p: &str) -> (b: bool)
    ensures
        b == contains_text(s@, p@),
{
    let sc = chars_of(s);
    let pc = chars_of(p);
    let n = sc.len();
    let mut i: usize = 0;
    while i < n
        invariant
            i <= n,
            n == sc@.len(),
            sc@ == s@,
            pc@ == p@,
            forall|k: int| 0 <= k < i ==> !occurs_at(s@, p@, k),
        decreases n - i,
    {
        if occurs_at_position(&sc, &pc, i) {
            return true;
        }
        i = i + 1;
    }
    occurs_at_position(&sc, &pc, n)
}

/// `s` with every occurrence of `from` replaced by `to`.
pub fn replace_text(s: &str, from: &str, to: &str) -> (out: String)
    ensures
        out@ == replace_all(s@, from@, to@),
{
    let sc = chars_of(s);
    let fc = chars_of(from);
    let n = sc.len();
    let m = fc.len();
    let mut out = String::new();
    if m == 0 {
        let mut i: usize = 0;
        assert(s@.skip(0) =~= s@);
        assert(out@ + replace_all(s@, from@, to@) =~= replace_all(s@, from@, to@));
        while i < n
            invariant
                i <= n,
                n == s@.len(),
                from@.len() == 0,
                out@ + replace_all(s@.skip(i as int), from@, to@) == replace_all(s@, from@, to@),
            decreases n - i,
        {
            let ghost before = out@;
            out.append(to);
            out.append(s.substring_char(i, i + 1));
            proof {
                let rest = s@.skip(i as int);
                assert(rest.skip(1) =~= s@.skip(i + 1));
                assert(s@.subrange(i as int, i + 1) =~= seq![rest[0]]);
                assert(out@ + replace_all(s@.skip(i + 1), from@, to@) =~= before + replace_all(
                    rest,
                    from@,
                    to@,
                ));
            }
            i = i + 1;
        }
        let ghost before = out@;
        out.append(to);
        assert(out@ =~= before + replace_all(s@.skip(n as int), from@, to@));
        return out;
    }
    let mut i: usize = 0;
    let mut run: usize = 0;
    assert(s@.skip(0) =~= s@);
    assert(out@ + s@.subrange(0, 0) + replace_all(s@, from@, to@) =~= replace_all(s@, from@, to@));
    while i < n && m <= n - i
        invariant
            run <= i <= n,
            n == s@.len(),
            m == from@.len(),
            m > 0,
            sc@ == s@,
            fc@ == from@,
            out@ + s@.subrange(run as int, i as int) + replace_all(s@.skip(i as int), from@, to@)
                == replace_all(s@, from@, to@),
        decreases n - i,
    {
        let ghost before = out@;
        let ghost rest = s@.skip(i as int);
        proof {
            assert(rest.subrange(0, m as int) =~= s@.subrange(i as int, i + m));
        }
        if occurs_at_position(&sc, &fc, i) {
            out.append(s.substring_char(run, i));
            out.append(to);
            proof {
                assert(rest.skip(m as int) =~= s@.skip(i + m));
                assert(s@.subrange(i + m, i + m) =~= Seq::<char>::empty());
                assert(out@ + s@.subrange(i + m, i + m) + replace_all(
                    s@.skip(i + m),
                    from@,
                    to@,
                ) =~= before + s@.subrange(run as int, i as int) + replace_all(rest, from@, to@));
            }
            i = i + m;
            run = i;
        } else {
            proof {
                assert(rest.skip(1) =~= s@.skip(i + 1));
                assert(s@.subrange(run as int, i + 1) =~= s@.subrange(run as int, i as int)
                    + seq![rest[0]]);
                assert(out@ + s@.subrange(run as int, i + 1) + replace_all(
                    s@.skip(i + 1),
                    from@,
                    to@,
                ) =~= before + s@.subrange(run as int, i as int) + replace_all(rest, from@, to@));
            }
            i = i + 1;
        }
    }
    let ghost before = out@;
    out.append(s.substring_char(run, n));
    proof {
        assert(replace_all(s@.skip(i as int), from@, to@) == s@.skip(i as int));
        assert(s@.subrange(run as int, n as int) =~= s@.subrange(run as int, i as int) + s@.skip(
            i as int,
        ));
    }
    out
}

/// The pieces of `s` that lie between the occurrences of `sep`. A text
/// without `sep` is one piece; an empty text is one empty piece.
pub open spec fn split_on(s: Seq<char>, sep: char) -> Seq<Seq<char>>
    decreases s.len(),
{
    if s.len() == 0 {
        seq![Seq::empty()]
    } else {
        let pieces = split_on(s.drop_last(), sep);
        if s.last() == sep {
            pieces.push(Seq::empty())
        } else {
            pieces.drop_last().push(pieces.last().push(s.last()))
        }
    }
}

/// Splitting yields at least one piece.
pub proof fn lemma_split_on_nonempty(s: Seq<char>, sep: char)
    ensures
        split_on(s, sep).len() >= 1,
    decreases s.len(),
{
    if s.len() > 0 {
        lemma_split_on_nonempty(s.drop_last(), sep);
    }
}

/// The views of a list of texts.
pub open spec fn texts(v: Seq<String>) -> Seq<Seq<char>> {
    Seq::new(v.len(), |i: int| v[i]@)
}

/// The pieces of `s` that lie between the occurrences of `sep`.
pub fn split_text(s: &str, sep: char) -> (pieces: Vec<String>)
    ensures
        texts(pieces@) == split_on(s@, sep),
        pieces@.len() >= 1,
{
    let sc = chars_of(s);
    let n = sc.len();
    let mut pieces: Vec<String> = Vec::new();
    let mut start: usize = 0;
    let mut i: usize = 0;
    assert(s@.subrange(0, 0) =~= Seq::<char>::empty());
    assert(s@.take(0).len() == 0);
    assert(split_on(s@.take(0), sep) =~= texts(pieces@).push(s@.subrange(0, 0)));
    while i < n
        invariant
            start <= i <= n,
            n == s@.len(),
            sc@ == s@,
            split_on(s@.take(i as int), sep) == texts(pieces@).push(
                s@.subrange(start as int, i as int),
            ),
        decreases n - i,
    {
        proof {
            let t = s@.take(i + 1);
            assert(t.drop_last() =~= s@.take(i as int));
            assert(t.last() == s@[i as int]);
        }
        if sc[i] == sep {
            let ghost before = texts(pieces@);
            pieces.push(s.substring_char(start, i).to_owned());
            proof {
                assert(texts(pieces@) =~= before.push(s@.subrange(start as int, i as int)));
                assert(s@.subrange(i + 1, i + 1) =~= Seq::<char>::empty());
            }
            start = i + 1;
        } else {
            proof {
                let before = texts(pieces@).push(s@.subrange(start as int, i as int));
                assert(before.drop_last() =~= texts(pieces@));
                assert(s@.subrange(start as int, i + 1) =~= s@.subrange(start as int, i as int).push(
                    s@[i as int],
                ));
            }
        }
        i = i + 1;
    }
    let ghost before = texts(pieces@);
    pieces.push(s.substring_char(start, n).to_owned());
    proof {
        assert(texts(pieces@) =~= before.push(s@.subrange(start as int, n as int)));
        assert(s@.take(n as int) =~= s@);
    }
    pieces
}

/// The position of the first `c` in `s`, or the length of `s` where `s`
/// holds no `c`.
pub open spec fn position_of(s: Seq<char>, c: char) -> int
    decreases s.len(),
{
    if s.len() == 0 {
        0
    } else if s[0] == c {
        0
    } else {
        1 + position_of(s.skip(1), c)
    }
}

/// What [`position_of`] yields is the first position of `c`, and only that.
pub proof fn lemma_position_of(s: Seq<char>, c: char)
    ensures
        0 <= position_of(s, c) <= s.len(),
        position_of(s, c) < s.len() ==> s[position_of(s, c)] == c,
        forall|j: int| 0 <= j < position_of(s, c) ==> s[j] != c,
    decreases s.len(),
{
    if s.len() == 0 {
    } else if s[0] == c {
    } else {
        let t = s.skip(1);
        lemma_position_of(t, c);
        assert forall|j: int| 0 <= j < position_of(s, c) implies s[j] != c by {
            if j > 0 {
                assert(t[j - 1] == s[j]);
            }
        }
    }
}

/// `s` cut at the first occurrence of `sep`: the text before it and the text
/// after it, or `None` where `s` holds no `sep`.
pub fn split_first(s: &str, sep: char) -> (parts: Option<(String, String)>)
    ensures
        parts is None <==> position_of(s@, sep) >= s@.len(),
        parts matches Some((head, tail)) ==> head@ == s@.take(position_of(s@, sep)) && tail@
            == s@.skip(position_of(s@, sep) + 1),
{
    let sc = chars_of(s);
    let n = sc.len();
    let mut i: usize = 0;
    proof {
        lemma_position_of(s@, sep);
    }
    while i < n
        invariant
            i <= n,
            n == s@.len(),
            sc@ == s@,
            i <= position_of(s@, sep) <= n,
            position_of(s@, sep) < n ==> s@[position_of(s@, sep)] == sep,
        decreases n - i,
    {
        if sc[i] == sep {
            proof {
                lemma_position_of(s@, sep);
            }
            let head = s.substring_char(0, i).to_owned();
            let tail = s.substring_char(i + 1, n).to_owned();
            return Some((head, tail));
        }
        i = i + 1;
    }
    None
}

pub open spec fn is_digit(c: char) -> bool {
    '0' <= c <= '9'
}

pub open spec fn all_digits(s: Seq<char>) -> bool {
    forall|i: int| 0 <= i < s.len() ==> is_digit(#[trigger] s[i])
}

/// The number that a run of decimal digits writes.
pub open spec fn decimal_value(s: Seq<char>) -> int
    decreases s.len(),
{
    if s.len() == 0 {
        0
    } else {
        decimal_value(s.drop_last()) * 10 + (s.last() as int - '0' as int)
    }
}

/// The 32-bit signed number that `s` writes in decimal: an optional sign,
/// then one digit or more, with a value in range.
pub open spec fn decimal_i32(s: Seq<char>) -> Option<i32> {
    let signed = s.len() > 0 && (s[0] == '-' || s[0] == '+');
    let digits = if signed {
        s.skip(1)
    } else {
        s
    };
    let magnitude = decimal_value(digits);
    let value = if s.len() > 0 && s[0] == '-' {
        -magnitude
    } else {
        magnitude
    };
    if digits.len() == 0 || !all_digits(digits) {
        None
    } else if i32::MIN <= value <= i32::MAX {
        Some(value as i32)
    } else {
        None
    }
}

proof fn lemma_decimal_value_grows(s: Seq<char>, k: int)
    requires
        all_digits(s),
        0 <= k <= s.len(),
    ensures
        0 <= decimal_value(s.take(k)) <= decimal_value(s),
    decreases s.len() - k,
{
    if k == s.len() {
        assert(s.take(k) =~= s);
        lemma_decimal_value_nonnegative(s);
    } else {
        lemma_decimal_value_grows(s, k + 1);
        let t = s.take(k + 1);
        assert(t.drop_last() =~= s.take(k));
        assert(is_digit(s[k]));
        lemma_decimal_value_nonnegative(s.take(k));
    }
}

proof fn lemma_decimal_value_nonnegative(s: Seq<char>)
    requires
        all_digits(s),
    ensures
        0 <= decimal_value(s),
    decreases s.len(),
{
    if s.len() > 0 {
        assert(is_digit(s.last()));
        lemma_decimal_value_nonnegative(s.drop_last());
    }
}

/// Reads a 32-bit signed number written in decimal.
pub fn parse_decimal_i32(s: &str) -> (r: Option<i32>)
    ensures
        r == decimal_i32(s@),
{
    let sc = chars_of(s);
    let n = sc.len();
    if n == 0 {
        return None;
    }
    let negative = sc[0] == '-';
    let first: usize = if sc[0] == '-' || sc[0] == '+' {
        1
    } else {
        0
    };
    if first == n {
        return None;
    }
    let ghost digits = s@.skip(first as int);
    assert(s@.skip(0) =~= s@);
    assert(digits.take(0) =~= Seq::<char>::empty());
    let mut acc: i64 = 0;
    let mut i: usize = first;
    while i < n
        invariant
            first <= i <= n,
            n == s@.len(),
            sc@ == s@,
            digits == s@.skip(first as int),
            first == 0 ==> digits == s@,
            first == if s@[0] == '-' || s@[0] == '+' {
                1usize
            } else {
                0usize
            },
            negative == (s@[0] == '-'),
            all_digits(digits.take(i - first)),
            acc == decimal_value(digits.take(i - first)),
            0 <= acc <= 0x8000_0000,
        decreases n - i,
    {
        let c = sc[i];
        proof {
            let t = digits.take(i + 1 - first);
            assert(t.drop_last() =~= digits.take(i - first));
            assert(t.last() == c);
            assert(digits[i - first] == c);
        }
        if c < '0' || c > '9' {
            assert(!is_digit(digits[i - first]));
            return None;
        }
        let d: i64 = (c as u32 - '0' as u32) as i64;
        acc = acc * 10 + d;
        proof {
            let t = digits.take(i + 1 - first);
            assert forall|k: int| 0 <= k < t.len() implies is_digit(#[trigger] t[k]) by {
                if k < i - first {
                    assert(digits.take(i - first)[k] == t[k]);
                }
            }
        }
        if acc > 0x8000_0000 {
            proof {
                // The digits that follow can only make the number larger, so
                // the rest only decides whether the text is a number at all.
                if all_digits(digits) {
                    lemma_decimal_value_grows(digits, i + 1 - first);
                }
            }
            return None;
        }
        i = i + 1;
    }
    proof {
        assert(digits.take(n - first) =~= digits);
    }
    if negative {
        Some((-acc) as i32)
    } else if acc <= 0x7fff_ffff {
        Some(acc as i32)
    } else {
        None
    }
}

} // verus!
