//! Byte-level text helpers for the puzzle format: trimming, comparing, splitting
//! into lines and words, and reading numbers.
use vstd::prelude::*;
use crate::ascii;

verus! {

/// ASCII white space: tab, line feed, vertical tab, form feed, carriage return, space.
pub open spec fn is_ws(b: u8) -> bool {
    b == 9 || b == 10 || b == 11 || b == 12 || b == 13 || b == 32
}

pub open spec fn is_digit(b: u8) -> bool {
    48 <= b <= 57
}

pub fn is_ws_byte(b: u8) -> (r: bool)
    ensures
        r == is_ws(b),
{
    b == 9 || b == 10 || b == 11 || b == 12 || b == 13 || b == 32
}

pub fn is_digit_byte(b: u8) -> (r: bool)
    ensures
        r == is_digit(b),
{
    48 <= b && b <= 57
}

/// Number of leading white-space bytes.
pub open spec fn lead_ws(s: Seq<u8>) -> int
    decreases s.len(),
{
    if s.len() > 0 && is_ws(s[0]) {
        1 + lead_ws(s.drop_first())
    } else {
        0
    }
}

/// Number of trailing white-space bytes.
pub open spec fn trail_ws(s: Seq<u8>) -> int
    decreases s.len(),
{
    if s.len() > 0 && is_ws(s.last()) {
        1 + trail_ws(s.drop_last())
    } else {
        0
    }
}

pub open spec fn trim_start(s: Seq<u8>) -> Seq<u8> {
    s.subrange(lead_ws(s), s.len() as int)
}

pub open spec fn trim_end(s: Seq<u8>) -> Seq<u8> {
    s.subrange(0, s.len() - trail_ws(s))
}

pub open spec fn trim(s: Seq<u8>) -> Seq<u8> {
    trim_end(trim_start(s))
}

pub proof fn lemma_lead_ws(s: Seq<u8>)
    ensures
        0 <= lead_ws(s) <= s.len(),
        forall|i: int| 0 <= i < lead_ws(s) ==> is_ws(#[trigger] s[i]),
        lead_ws(s) < s.len() ==> !is_ws(s[lead_ws(s)]),
    decreases s.len(),
{
    if s.len() > 0 && is_ws(s[0]) {
        lemma_lead_ws(s.drop_first());
        assert forall|i: int| 0 <= i < lead_ws(s) implies is_ws(#[trigger] s[i]) by {
            if i > 0 {
                assert(s[i] == s.drop_first()[i - 1]);
            }
        }
    }
}

pub proof fn lemma_trail_ws(s: Seq<u8>)
    ensures
        0 <= trail_ws(s) <= s.len(),
        forall|i: int| s.len() - trail_ws(s) <= i < s.len() ==> is_ws(#[trigger] s[i]),
        trail_ws(s) < s.len() ==> !is_ws(s[s.len() - trail_ws(s) - 1]),
    decreases s.len(),
{
    if s.len() > 0 && is_ws(s.last()) {
        lemma_trail_ws(s.drop_last());
        assert forall|i: int| s.len() - trail_ws(s) <= i < s.len() implies is_ws(#[trigger] s[i]) by {
            if i < s.len() - 1 {
                assert(s[i] == s.drop_last()[i]);
            }
        }
    }
}

/// Index of the first byte after the leading white space of `s[from..to]`.
pub fn skip_ws(s: &[u8], from: usize, to: usize) -> (i: usize)
    requires
        from <= to <= s@.len(),
    ensures
        i == from + lead_ws(s@.subrange(from as int, to as int)),
        from <= i <= to,
{
    let mut i = from;
    while i < to && is_ws_byte(s[i])
        invariant
            from <= i <= to <= s@.len(),
            lead_ws(s@.subrange(from as int, to as int)) == (i - from) + lead_ws(
                s@.subrange(i as int, to as int),
            ),
        decreases to - i,
    {
        proof {
            assert(s@.subrange(i as int, to as int).drop_first() =~= s@.subrange(i + 1, to as int));
        }
        i = i + 1;
    }
    i
}

/// Index just past the last byte that is not white space in `s[from..to]`.
pub fn skip_ws_back(s: &[u8], from: usize, to: usize) -> (i: usize)
    requires
        from <= to <= s@.len(),
    ensures
        i == to - trail_ws(s@.subrange(from as int, to as int)),
        from <= i <= to,
{
    let mut i = to;
    while i > from && is_ws_byte(s[i - 1])
        invariant
            from <= i <= to <= s@.len(),
            trail_ws(s@.subrange(from as int, to as int)) == (to - i) + trail_ws(
                s@.subrange(from as int, i as int),
            ),
        decreases i - from,
    {
        proof {
            assert(s@.subrange(from as int, i as int).drop_last() =~= s@.subrange(
                from as int,
                i - 1,
            ));
        }
        i = i - 1;
    }
    i
}

/// The bounds `[a, b)` of `trim(s[from..to])` inside `s`.
pub fn trim_range(s: &[u8], from: usize, to: usize) -> (r: (usize, usize))
    requires
        from <= to <= s@.len(),
    ensures
        from <= r.0 <= r.1 <= to,
        s@.subrange(r.0 as int, r.1 as int) == trim(s@.subrange(from as int, to as int)),
{
    let a = skip_ws(s, from, to);
    let b = skip_ws_back(s, a, to);
    proof {
        let t = s@.subrange(from as int, to as int);
        lemma_lead_ws(t);
        assert(trim_start(t) =~= s@.subrange(a as int, to as int));
    }
    (a, b)
}

/// A copy of `s[from..to]`.
pub fn slice_copy(s: &[u8], from: usize, to: usize) -> (v: Vec<u8>)
    requires
        from <= to <= s@.len(),
    ensures
        v@ == s@.subrange(from as int, to as int),
{
    let mut v: Vec<u8> = Vec::new();
    let mut i = from;
    while i < to
        invariant
            from <= i <= to <= s@.len(),
            v@ == s@.subrange(from as int, i as int),
        decreases to - i,
    {
        v.push(s[i]);
        proof {
            assert(v@ =~= s@.subrange(from as int, i + 1));
        }
        i = i + 1;
    }
    v
}

/// `trim(s)` as a new vector.
pub fn trimmed(s: &[u8]) -> (v: Vec<u8>)
    ensures
        v@ == trim(s@),
{
    let (a, b) = trim_range(s, 0, s.len());
    proof {
        assert(s@.subrange(0, s@.len() as int) =~= s@);
    }
    slice_copy(s, a, b)
}

/// `s[from..to]` equals the bytes of `lit`.
pub fn range_is(s: &[u8], from: usize, to: usize, lit: &[u8]) -> (r: bool)
    requires
        from <= to <= s@.len(),
    ensures
        r == (s@.subrange(from as int, to as int) == lit@),
{
    if to - from != lit.len() {
        return false;
    }
    let mut i: usize = 0;
    while i < lit.len()
        invariant
            from <= to <= s@.len(),
            to - from == lit@.len(),
            i <= lit@.len(),
            forall|k: int| 0 <= k < i ==> s@[from + k] == lit@[k],
        decreases lit@.len() - i,
    {
        if s[from + i] != lit[i] {
            return false;
        }
        i = i + 1;
    }
    proof {
        assert(s@.subrange(from as int, to as int) =~= lit@);
    }
    true
}

/// `s` equals the bytes of `lit`.
pub fn bytes_eq(s: &[u8], lit: &[u8]) -> (r: bool)
    ensures
        r == (s@ == lit@),
{
    let r = range_is(s, 0, s.len(), lit);
    proof {
        assert(s@.subrange(0, s@.len() as int) =~= s@);
    }
    r
}

/// `s` starts with the bytes of `lit`.
pub fn starts_with(s: &[u8], lit: &[u8]) -> (r: bool)
    ensures
        r == (lit@.len() <= s@.len() && s@.subrange(0, lit@.len() as int) == lit@),
{
    if lit.len() > s.len() {
        return false;
    }
    range_is(s, 0, lit.len(), lit)
}

/// Value of a run of decimal digits.
pub open spec fn digits_value(s: Seq<u8>) -> nat
    decreases s.len(),
{
    if s.len() == 0 {
        0
    } else {
        digits_value(s.drop_last()) * 10 + (s.last() - 48) as nat
    }
}

pub open spec fn all_digits(s: Seq<u8>) -> bool {
    forall|i: int| 0 <= i < s.len() ==> is_digit(#[trigger] s[i])
}

/// The digits of a decimal number: an optional `+`, then at least one digit.
pub open spec fn number_digits(s: Seq<u8>) -> Seq<u8> {
    if s.len() > 0 && s[0] == ascii::PLUS {
        s.drop_first()
    } else {
        s
    }
}

/// What reading a `usize` from the text gives: `None` unless the text is an optional
/// `+` followed by one or more digits whose value fits in a `usize`.
pub open spec fn parse_usize_spec(s: Seq<u8>) -> Option<usize> {
    let d = number_digits(s);
    if d.len() > 0 && all_digits(d) && digits_value(d) <= usize::MAX {
        Some(digits_value(d) as usize)
    } else {
        None
    }
}

proof fn lemma_digits_value_mono(s: Seq<u8>, k: int)
    requires
        0 <= k <= s.len(),
        all_digits(s),
    ensures
        digits_value(s.subrange(0, k)) <= digits_value(s),
    decreases s.len() - k,
{
    if k < s.len() {
        lemma_digits_value_mono(s, k + 1);
        assert(s.subrange(0, k + 1).drop_last() =~= s.subrange(0, k));
    } else {
        assert(s.subrange(0, k) =~= s);
    }
}

/// Reads a `usize` from `s[from..to]` as Rust's `str::parse::<usize>` does.
pub fn parse_usize_range(s: &[u8], from: usize, to: usize) -> (r: Option<usize>)
    requires
        from <= to <= s@.len(),
    ensures
        r == parse_usize_spec(s@.subrange(from as int, to as int)),
{
    let ghost t = s@.subrange(from as int, to as int);
    let mut i = from;
    if i < to && s[i] == ascii::PLUS {
        i = i + 1;
    }
    let ghost d = number_digits(t);
    proof {
        assert(d =~= s@.subrange(i as int, to as int));
    }
    if i == to {
        return None;
    }
    let start = i;
    let mut v: usize = 0;
    let mut overflow = false;
    while i < to
        invariant
            start <= i <= to <= s@.len(),
            d == s@.subrange(start as int, to as int),
            d == number_digits(t),
            t == s@.subrange(from as int, to as int),
            forall|k: int| start <= k < i ==> is_digit(#[trigger] s@[k]),
            !overflow ==> v == digits_value(s@.subrange(start as int, i as int)),
            overflow ==> digits_value(s@.subrange(start as int, i as int)) > usize::MAX,
        decreases to - i,
    {
        let b = s[i];
        if !is_digit_byte(b) {
            proof {
                assert(d[i - start] == b);
                assert(!is_digit(d[i - start]));
                assert(!all_digits(d));
            }
            return None;
        }
        proof {
            assert(s@.subrange(start as int, i + 1).drop_last() =~= s@.subrange(
                start as int,
                i as int,
            ));
        }
        if !overflow {
            let dig = (b - 48) as usize;
            if v > (usize::MAX - dig) / 10 {
                overflow = true;
                proof {
                    assert(v * 10 + dig > usize::MAX) by (nonlinear_arith)
                        requires
                            v > (usize::MAX - dig) / 10,
                            dig <= 9,
                    ;
                }
            } else {
                proof {
                    assert(v * 10 + dig <= usize::MAX) by (nonlinear_arith)
                        requires
                            v <= (usize::MAX - dig) / 10,
                            dig <= 9,
                    ;
                }
                v = v * 10 + dig;
            }
        } else {
            proof {
                let p = digits_value(s@.subrange(start as int, i as int));
                assert(p * 10 >= p) by (nonlinear_arith)
                    requires
                        p >= 0,
                ;
            }
        }
        i = i + 1;
    }
    proof {
        assert(all_digits(d));
    }
    if overflow {
        None
    } else {
        Some(v)
    }
}

/// Reads a `usize` from `s` as Rust's `str::parse::<usize>` does.
pub fn parse_usize(s: &[u8]) -> (r: Option<usize>)
    ensures
        r == parse_usize_spec(s@),
{
    proof {
        assert(s@.subrange(0, s@.len() as int) =~= s@);
    }
    parse_usize_range(s, 0, s.len())
}

/// A word: a maximal run of bytes that are not white space, given by its bounds.
pub open spec fn is_word(s: Seq<u8>, a: int, b: int) -> bool {
    &&& 0 <= a < b <= s.len()
    &&& forall|k: int| a <= k < b ==> !is_ws(#[trigger] s[k])
    &&& (a == 0 || is_ws(s[a - 1]))
    &&& (b == s.len() || is_ws(s[b]))
}

/// `w` lists the bounds of every word of `s`, in order.
pub open spec fn words_ok(s: Seq<u8>, w: Seq<(usize, usize)>) -> bool {
    &&& forall|k: int| 0 <= k < w.len() ==> is_word(s, #[trigger] w[k].0 as int, w[k].1 as int)
    &&& forall|k: int, l: int| 0 <= k < l < w.len() ==> #[trigger] w[k].1 < #[trigger] w[l].0
    &&& forall|a: int, b: int|
        is_word(s, a, b) ==> exists|k: int| 0 <= k < w.len() && #[trigger] w[k] == (a as usize, b as usize)
}

/// The bounds of the words of `s`, in order (see `words_ok`; there is exactly one such list).
pub open spec fn words_of(s: Seq<u8>) -> Seq<(usize, usize)> {
    choose|w: Seq<(usize, usize)>| words_ok(s, w)
}

/// Two lists of the words agree on their first `k` entries.
proof fn lemma_words_agree(s: Seq<u8>, v: Seq<(usize, usize)>, w: Seq<(usize, usize)>, k: int)
    requires
        words_ok(s, v),
        words_ok(s, w),
        0 <= k <= v.len(),
        k <= w.len(),
    ensures
        forall|j: int| 0 <= j < k ==> v[j] == w[j],
    decreases k,
{
    if k > 0 {
        lemma_words_agree(s, v, w, k - 1);
        let j = k - 1;
        assert(is_word(s, v[j].0 as int, v[j].1 as int));
        let l = choose|l: int| 0 <= l < w.len() && #[trigger] w[l] == (v[j].0 as int as usize, v[j].1 as int as usize);
        assert(w[l] == v[j]);
        if l < j {
            assert(v[l] == w[l]);
            assert(v[l].1 < v[j].0);
            assert(is_word(s, v[l].0 as int, v[l].1 as int));
        } else if l > j {
            assert(is_word(s, w[j].0 as int, w[j].1 as int));
            let m = choose|m: int| 0 <= m < v.len() && #[trigger] v[m] == (w[j].0 as int as usize, w[j].1 as int as usize);
            assert(v[m] == w[j]);
            if m < j {
                assert(v[m] == w[m]);
                assert(w[m].1 < w[j].0);
                assert(is_word(s, w[m].0 as int, w[m].1 as int));
            } else if m > j {
                assert(v[j].1 < v[m].0);
                assert(w[j].1 < w[l].0);
                assert(is_word(s, w[j].0 as int, w[j].1 as int));
                assert(is_word(s, v[j].0 as int, v[j].1 as int));
            }
        }
    }
}

/// There is only one list of the words.
pub proof fn lemma_words_unique(s: Seq<u8>, w: Seq<(usize, usize)>)
    requires
        words_ok(s, w),
    ensures
        words_of(s) == w,
{
    let v = words_of(s);
    assert(words_ok(s, v));
    if v.len() > w.len() {
        lemma_words_agree(s, v, w, w.len() as int);
        let j = w.len() as int;
        assert(is_word(s, v[j].0 as int, v[j].1 as int));
        let l = choose|l: int| 0 <= l < w.len() && #[trigger] w[l] == (v[j].0 as int as usize, v[j].1 as int as usize);
        assert(v[l] == w[l]);
        assert(v[l].1 < v[j].0);
        assert(is_word(s, v[l].0 as int, v[l].1 as int));
    } else if v.len() < w.len() {
        lemma_words_agree(s, v, w, v.len() as int);
        let j = v.len() as int;
        assert(is_word(s, w[j].0 as int, w[j].1 as int));
        let l = choose|l: int| 0 <= l < v.len() && #[trigger] v[l] == (w[j].0 as int as usize, w[j].1 as int as usize);
        assert(v[l] == w[l]);
        assert(w[l].1 < w[j].0);
        assert(is_word(s, w[l].0 as int, w[l].1 as int));
    } else {
        lemma_words_agree(s, v, w, v.len() as int);
        assert(v =~= w);
    }
}

/// The bounds of the white-space separated words of `s`, in order.
pub fn split_words(s: &[u8]) -> (w: Vec<(usize, usize)>)
    ensures
        w@ == words_of(s@),
        forall|k: int| 0 <= k < w@.len() ==> is_word(s@, #[trigger] w@[k].0 as int, w@[k].1 as int),
        forall|k: int, l: int| 0 <= k < l < w@.len() ==> #[trigger] w@[k].1 < #[trigger] w@[l].0,
        forall|a: int, b: int|
            is_word(s@, a, b) ==> exists|k: int| 0 <= k < w@.len() && #[trigger] w@[k] == (a as usize, b as usize),
{
    let mut w: Vec<(usize, usize)> = Vec::new();
    let mut i: usize = 0;
    while i < s.len()
        invariant
            i <= s@.len(),
            i == 0 || i == s@.len() || is_ws(s@[i - 1]) || (w@.len() > 0 && w@.last().1 == i),
            forall|k: int| 0 <= k < w@.len() ==> is_word(s@, #[trigger] w@[k].0 as int, w@[k].1 as int),
            forall|k: int| 0 <= k < w@.len() ==> #[trigger] w@[k].1 <= i,
            forall|k: int, l: int| 0 <= k < l < w@.len() ==> #[trigger] w@[k].1 < #[trigger] w@[l].0,
            forall|a: int, b: int|
                is_word(s@, a, b) && a < i ==> exists|k: int| 0 <= k < w@.len() && #[trigger] w@[k] == (a as usize, b as usize),
        decreases s@.len() - i,
    {
        if is_ws_byte(s[i]) {
            proof {
                assert forall|a: int, b: int| is_word(s@, a, b) && a < i + 1 implies exists|k: int|
                    0 <= k < w@.len() && #[trigger] w@[k] == (a as usize, b as usize) by {
                    if a == i {
                        assert(!is_ws(s@[a]));
                    }
                }
            }
            i = i + 1;
        } else {
            let a = i;
            while i < s.len() && !is_ws_byte(s[i])
                invariant
                    a <= i <= s@.len(),
                    forall|k: int| a <= k < i ==> !is_ws(#[trigger] s@[k]),
                decreases s@.len() - i,
            {
                i = i + 1;
            }
            proof {
                assert(a == 0 || is_ws(s@[a - 1])) by {
                    if a > 0 && !is_ws(s@[a - 1]) {
                        assert(w@.len() > 0 && w@.last().1 == a);
                        let k = w@.len() - 1;
                        assert(is_word(s@, w@[k].0 as int, w@[k].1 as int));
                    }
                }
            }
            let ghost before = w@;
            w.push((a, i));
            proof {
                assert forall|x: int, y: int| is_word(s@, x, y) && x < i implies exists|k: int|
                    0 <= k < w@.len() && #[trigger] w@[k] == (x as usize, y as usize) by {
                    if x < a {
                        let k = choose|k: int| 0 <= k < before.len() && #[trigger] before[k] == (x as usize, y as usize);
                        assert(w@[k] == before[k]);
                    } else {
                        if x > a {
                            assert(!is_ws(s@[x - 1]));
                        }
                        assert(x == a);
                        if y < i {
                            assert(!is_ws(s@[y]));
                        }
                        if y > i {
                            assert(is_ws(s@[i as int]));
                        }
                        assert(w@[before.len() as int] == (x as usize, y as usize));
                    }
                }
                assert forall|k: int, l: int| 0 <= k < l < w@.len() implies #[trigger] w@[k].1 < #[trigger] w@[l].0 by {
                    if l == before.len() {
                        assert(w@[k] == before[k]);
                        assert(before[k].1 <= a);
                        if before[k].1 == a {
                            assert(is_word(s@, before[k].0 as int, before[k].1 as int));
                            assert(is_ws(s@[a as int]) || a == s@.len());
                        }
                    }
                }
            }
        }
    }
    proof {
        assert(words_ok(s@, w@));
        lemma_words_unique(s@, w@);
    }
    w
}

/// The bytes of the text split into lines at line feeds. A line feed that ends the text
/// does not start another line.
pub open spec fn split_nl(s: Seq<u8>) -> Seq<Seq<u8>>
    decreases s.len(),
{
    if s.len() == 0 {
        seq![]
    } else {
        let k = first_nl(s, 0);
        proof {
            lemma_first_nl(s, 0);
        }
        if k >= s.len() {
            seq![s]
        } else {
            seq![s.subrange(0, k)] + split_nl(s.subrange(k + 1, s.len() as int))
        }
    }
}

/// Index of the first line feed at or after `i` (the length when there is none).
pub open spec fn first_nl(s: Seq<u8>, i: int) -> int
    decreases s.len() - i,
{
    if i < 0 || i >= s.len() {
        s.len() as int
    } else if s[i] == ascii::NL {
        i
    } else {
        first_nl(s, i + 1)
    }
}

pub proof fn lemma_first_nl(s: Seq<u8>, i: int)
    requires
        0 <= i <= s.len(),
    ensures
        i <= first_nl(s, i) <= s.len(),
        first_nl(s, i) < s.len() ==> s[first_nl(s, i)] == ascii::NL,
        forall|k: int| i <= k < first_nl(s, i) ==> s[k] != ascii::NL,
    decreases s.len() - i,
{
    if i < s.len() && s[i] != ascii::NL {
        lemma_first_nl(s, i + 1);
    }
}

} // verus!
