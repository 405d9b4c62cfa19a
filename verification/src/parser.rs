//! The puzzle text format: global rules, a drawn grid with clues, and
//! supplementary clue lines.
use vstd::prelude::*;
use vstd::utf8::valid_utf8;
use crate::ascii;
use crate::grid::{lemma_index_in_box, Grid};
use crate::polyomino::{self, puzzle_shapes_ok};
use crate::text::{
    bytes_eq, is_digit, is_digit_byte, is_ws, lead_ws, lemma_lead_ws, lemma_trail_ws, parse_usize,
    parse_usize_range, range_is, skip_ws, skip_ws_back, slice_copy, split_nl, split_words, starts_with,
    trail_ws, trim, trim_end, trim_range, trim_start, trimmed, first_nl,
};
use crate::types::{
    CellClue, CellId, CompassData, EdgeClue, EdgeClueKind, EdgeId, GlobalRules, PalisadeKind, Puzzle,
    Shape, VertexClue,
};

verus! {

/// A parse failure with its message.
#[derive(Debug)]
pub struct ParseError(pub String);

/// The parser's state: the puzzle read so far, its grid, the input lines,
/// the lines of the drawn grid, and the edges that the drawing cuts.
pub struct Parser {
    pub puzzle: Puzzle,
    pub grid: Grid,
    pub lines: Vec<Vec<u8>>,
    pub grid_start: usize,
    pub grid_end: usize,
    pub pre_cut_edges: Vec<EdgeId>,
}

/// Whether the bytes are valid UTF-8, as `std::str::from_utf8` decides.
#[verifier::external_body]
fn is_valid_utf8(b: &[u8]) -> (r: bool)
    ensures
        r == valid_utf8(b@),
{
    std::str::from_utf8(b).is_ok()
}

/// One input line as the parser keeps it: invalid UTF-8 reads as an empty line,
/// and trailing white space is dropped.
pub open spec fn clean_line(seg: Seq<u8>) -> Seq<u8> {
    if valid_utf8(seg) {
        trim_end(seg)
    } else {
        seq![]
    }
}

/// The cleaned lines that are not blank.
pub open spec fn kept_lines(segs: Seq<Seq<u8>>) -> Seq<Seq<u8>>
    decreases segs.len(),
{
    if segs.len() == 0 {
        seq![]
    } else {
        let l = clean_line(segs.last());
        let rest = kept_lines(segs.drop_last());
        if trim(l).len() > 0 {
            rest.push(l)
        } else {
            rest
        }
    }
}

/// The lines of the input that the parser works on.
pub open spec fn input_lines(input: Seq<u8>) -> Seq<Seq<u8>> {
    kept_lines(split_nl(input))
}

/// The first line feed is found where the scan stops.
proof fn lemma_first_nl_at(s: Seq<u8>, i: int, f: int)
    requires
        0 <= i <= f <= s.len(),
        forall|j: int| i <= j < f ==> s[j] != ascii::NL,
        f == s.len() || s[f] == ascii::NL,
    ensures
        first_nl(s, i) == f,
    decreases f - i,
{
    if i < f {
        lemma_first_nl_at(s, i + 1, f);
    }
}

proof fn lemma_kept_lines_push(segs: Seq<Seq<u8>>, seg: Seq<u8>)
    ensures
        kept_lines(segs.push(seg)) == (if trim(clean_line(seg)).len() > 0 {
            kept_lines(segs).push(clean_line(seg))
        } else {
            kept_lines(segs)
        }),
{
    assert(segs.push(seg).drop_last() =~= segs);
}

/// Splits the input at line feeds and keeps the lines that are not blank.
fn read_lines(input: &[u8]) -> (lines: Vec<Vec<u8>>)
    ensures
        lines@.len() == input_lines(input@).len(),
        forall|k: int| 0 <= k < lines@.len() ==> (#[trigger] lines@[k])@ == input_lines(input@)[k],
        lines@.len() <= input@.len(),
        forall|k: int| 0 <= k < lines@.len() ==> (#[trigger] lines@[k])@.len() <= input@.len(),
{
    let mut lines: Vec<Vec<u8>> = Vec::new();
    let ghost mut segs: Seq<Seq<u8>> = seq![];
    let mut pos: usize = 0;
    let n = input.len();
    proof {
        assert(input@.subrange(0, n as int) =~= input@);
        assert(segs + split_nl(input@) =~= split_nl(input@));
    }
    while pos < n
        invariant
            pos <= n == input@.len(),
            split_nl(input@) == segs + split_nl(input@.subrange(pos as int, n as int)),
            lines@.len() == kept_lines(segs).len(),
            forall|k: int| 0 <= k < lines@.len() ==> (#[trigger] lines@[k])@ == kept_lines(segs)[k],
            lines@.len() <= pos,
            forall|k: int| 0 <= k < lines@.len() ==> (#[trigger] lines@[k])@.len() <= pos,
        decreases n - pos,
    {
        let mut k = pos;
        while k < n && input[k] != ascii::NL
            invariant
                pos <= k <= n == input@.len(),
                forall|j: int| pos <= j < k ==> input@[j] != ascii::NL,
            decreases n - k,
        {
            k = k + 1;
        }
        let ghost rest = input@.subrange(pos as int, n as int);
        proof {
            lemma_first_nl_at(rest, 0, k - pos);
            if k < n {
                assert(rest.subrange(k - pos + 1, rest.len() as int) =~= input@.subrange(
                    k + 1,
                    n as int,
                ));
                assert(rest.subrange(0, k - pos) =~= input@.subrange(pos as int, k as int));
            } else {
                assert(rest =~= input@.subrange(pos as int, k as int));
            }
        }
        let seg = slice_copy(input, pos, k);
        let ghost old_segs = segs;
        proof {
            segs = segs.push(seg@);
            lemma_kept_lines_push(old_segs, seg@);
        }
        let valid = is_valid_utf8(&seg);
        if valid {
            let e = skip_ws_back(&seg, 0, seg.len());
            let t = skip_ws(&seg, 0, e);
            if t < e {
                let line = slice_copy(&seg, 0, e);
                proof {
                    assert(seg@.subrange(0, seg@.len() as int) =~= seg@);
                    assert(line@ == clean_line(seg@));
                    lemma_lead_ws(line@);
                    lemma_lead_ws(seg@.subrange(0, e as int));
                    assert(line@ =~= seg@.subrange(0, e as int));
                    lemma_trail_ws(trim_start(line@));
                    assert(trim(line@).len() > 0) by {
                        let ts = trim_start(line@);
                        assert(ts.len() > 0);
                        assert(!is_ws(ts[0]));
                        if trail_ws(ts) == ts.len() {
                            assert(is_ws(ts[0]));
                        }
                    }
                }
                lines.push(line);
            } else {
                proof {
                    assert(seg@.subrange(0, seg@.len() as int) =~= seg@);
                    lemma_lead_ws(seg@.subrange(0, e as int));
                    assert(trim_start(clean_line(seg@)).len() == 0);
                }
            }
        }
        proof {
            if !valid {
                assert(clean_line(seg@) =~= seq![]);
                assert(trim(clean_line(seg@)) =~= seq![]);
            }
        }
        if k < n {
            pos = k + 1;
        } else {
            pos = n;
            proof {
                assert(split_nl(input@.subrange(n as int, n as int)) =~= seq![]);
            }
        }
        proof {
            assert(split_nl(input@) == segs + split_nl(input@.subrange(pos as int, n as int)));
        }
    }
    proof {
        assert(split_nl(input@.subrange(n as int, n as int)) =~= seq![]);
        assert(segs =~= split_nl(input@));
    }
    lines
}


// ── Lines of the drawn grid ──────────────────────────────────────────────────

/// The line, without leading white space, starts with `+`.
pub open spec fn starts_plus(l: Seq<u8>) -> bool {
    trim_start(l).len() > 0 && trim_start(l)[0] == ascii::PLUS
}

/// The line, without leading white space, starts with `|`.
pub open spec fn starts_pipe(l: Seq<u8>) -> bool {
    trim_start(l).len() > 0 && trim_start(l)[0] == ascii::PIPE
}

pub open spec fn ends_with(l: Seq<u8>, b: u8) -> bool {
    l.len() > 0 && l.last() == b
}

/// The first line of a drawn grid: `+` ... `+`, at least three bytes long after indentation.
pub open spec fn is_grid_start(l: Seq<u8>) -> bool {
    trim_start(l).len() >= 3 && starts_plus(l) && ends_with(l, ascii::PLUS)
}

/// A line of the drawn grid: an edge row (`+` ... `+`) or a cell row (`|` ... `|`).
pub open spec fn is_grid_row(l: Seq<u8>) -> bool {
    (starts_plus(l) && ends_with(l, ascii::PLUS)) || (starts_pipe(l) && ends_with(l, ascii::PIPE))
}

/// The index of the first grid start line at or after `i`, if any.
pub open spec fn find_grid_start(lines: Seq<Seq<u8>>, i: int) -> Option<int>
    decreases lines.len() - i,
{
    if i < 0 || i >= lines.len() {
        None
    } else if is_grid_start(lines[i]) {
        Some(i)
    } else {
        find_grid_start(lines, i + 1)
    }
}

/// The last line of the run of grid rows that continues from line `i`.
pub open spec fn grid_run_end(lines: Seq<Seq<u8>>, i: int) -> int
    decreases lines.len() - i,
{
    if 0 <= i && i + 1 < lines.len() && is_grid_row(lines[i + 1]) {
        grid_run_end(lines, i + 1)
    } else {
        i
    }
}

/// Number of cell rows among lines `from..to`.
pub open spec fn count_cell_rows(lines: Seq<Seq<u8>>, from: int, to: int) -> nat
    decreases to - from,
{
    if from >= to {
        0
    } else if starts_pipe(lines[to - 1]) {
        count_cell_rows(lines, from, to - 1) + 1
    } else {
        count_cell_rows(lines, from, to - 1)
    }
}

/// Vertex symbols of edge rows: `+`, and the watchtower marks `!`, `@`, `#`, `$`.
pub open spec fn is_vertex_symbol(b: u8) -> bool {
    b == ascii::PLUS || b == ascii::BANG || b == ascii::AT || b == ascii::HASH || b == ascii::DOLLAR
}

/// Byte position `p` holds a vertex symbol in some edge row among lines `from..to`.
pub open spec fn is_grid_column(lines: Seq<Seq<u8>>, from: int, to: int, p: int) -> bool {
    exists|i: int|
        from <= i < to && starts_plus(#[trigger] lines[i]) && 0 <= p < lines[i].len()
            && is_vertex_symbol(lines[i][p])
}

pub open spec fn strictly_increasing(s: Seq<usize>) -> bool {
    forall|a: int, b: int| 0 <= a < b < s.len() ==> #[trigger] s[a] < #[trigger] s[b]
}

fn is_vertex_symbol_byte(b: u8) -> (r: bool)
    ensures
        r == is_vertex_symbol(b),
{
    b == ascii::PLUS || b == ascii::BANG || b == ascii::AT || b == ascii::HASH || b == ascii::DOLLAR
}

fn starts_plus_exec(l: &[u8]) -> (r: bool)
    ensures
        r == starts_plus(l@),
{
    let t = skip_ws(l, 0, l.len());
    proof {
        assert(l@.subrange(0, l@.len() as int) =~= l@);
        lemma_lead_ws(l@);
    }
    t < l.len() && l[t] == ascii::PLUS
}

fn starts_pipe_exec(l: &[u8]) -> (r: bool)
    ensures
        r == starts_pipe(l@),
{
    let t = skip_ws(l, 0, l.len());
    proof {
        assert(l@.subrange(0, l@.len() as int) =~= l@);
        lemma_lead_ws(l@);
    }
    t < l.len() && l[t] == ascii::PIPE
}

fn ends_with_exec(l: &[u8], b: u8) -> (r: bool)
    ensures
        r == ends_with(l@, b),
{
    l.len() > 0 && l[l.len() - 1] == b
}

/// Inserts `p` into a strictly increasing sequence, keeping it so.
#[verifier::spinoff_prover]
pub fn sorted_insert(v: &mut Vec<usize>, p: usize)
    requires
        strictly_increasing(old(v)@),
    ensures
        strictly_increasing(final(v)@),
        forall|x: usize| final(v)@.contains(x) <==> (old(v)@.contains(x) || x == p),
{
    let mut i: usize = 0;
    while i < v.len() && v[i] < p
        invariant
            i <= v@.len(),
            v@ == old(v)@,
            forall|k: int| 0 <= k < i ==> v@[k] < p,
        decreases v@.len() - i,
    {
        i = i + 1;
    }
    if i < v.len() && v[i] == p {
        proof {
            assert(v@[i as int] == p);
            assert(v@.contains(p));
        }
        return;
    }
    let ghost before = v@;
    v.insert(i, p);
    proof {
        assert forall|a: int, b: int| 0 <= a < b < v@.len() implies #[trigger] v@[a] < #[trigger] v@[b] by {
            if b < i {
            } else if b == i {
            } else if a < i {
                assert(before[a] < p && p < before[b - 1]);
            } else if a == i {
                assert(p < before[i as int] || i == b - 1);
                if i < b - 1 {
                    assert(before[i as int] < before[b - 1]);
                }
            } else {
                assert(before[a - 1] < before[b - 1]);
            }
        }
        assert forall|x: usize| v@.contains(x) <==> (before.contains(x) || x == p) by {
            if v@.contains(x) {
                let k = choose|k: int| 0 <= k < v@.len() && v@[k] == x;
                if k < i {
                    assert(before[k] == x);
                } else if k > i {
                    assert(before[k - 1] == x);
                }
            }
            if before.contains(x) {
                let k = choose|k: int| 0 <= k < before.len() && before[k] == x;
                if k < i {
                    assert(v@[k] == x);
                } else {
                    assert(v@[k + 1] == x);
                }
            }
            if x == p {
                assert(v@[i as int] == p);
            }
        }
    }
}

// ── Small readers ────────────────────────────────────────────────────────────

/// Cuts the line at the first `#` and trims it.
fn strip_comment(s: &[u8]) -> (r: Vec<u8>)
    ensures
        r@ == trim(s@.subrange(0, first_byte(s@, ascii::HASH))),
{
    let mut k: usize = 0;
    while k < s.len() && s[k] != ascii::HASH
        invariant
            k <= s@.len(),
            forall|j: int| 0 <= j < k ==> s@[j] != ascii::HASH,
        decreases s@.len() - k,
    {
        k = k + 1;
    }
    proof {
        lemma_first_byte_at(s@, ascii::HASH, k as int);
    }
    let (a, b) = trim_range(s, 0, k);
    slice_copy(s, a, b)
}

/// Position of the first `b` in `s` (the length when there is none).
pub open spec fn first_byte(s: Seq<u8>, b: u8) -> int {
    if exists|i: int| 0 <= i < s.len() && s[i] == b {
        choose|i: int| 0 <= i < s.len() && s[i] == b && forall|j: int| 0 <= j < i ==> s[j] != b
    } else {
        s.len() as int
    }
}

proof fn lemma_first_byte_at(s: Seq<u8>, b: u8, k: int)
    requires
        0 <= k <= s.len(),
        forall|j: int| 0 <= j < k ==> s[j] != b,
        k == s.len() || s[k] == b,
    ensures
        first_byte(s, b) == k,
{
    if k < s.len() {
        assert(s[k] == b);
        let i = choose|i: int| 0 <= i < s.len() && s[i] == b && forall|j: int| 0 <= j < i ==> s[j] != b;
        if i < k {
            assert(s[i] != b);
        }
        if i > k {
            assert(s[k] != b);
        }
    }
}

fn set_precision(rules: &mut GlobalRules, val: usize)
    ensures
        final(rules).minimum == Some(val),
        final(rules).maximum == Some(val),
        final(rules).shape_bank == old(rules).shape_bank,
{
    rules.minimum = Some(val);
    rules.maximum = Some(val);
}

/// The clue kind of an edge symbol.
pub open spec fn edge_char_kind(ch: u8) -> Option<EdgeClueKind> {
    if ch == ascii::CARET || ch == ascii::LT {
        Some(EdgeClueKind::Inequality { smaller_first: true })
    } else if ch == ascii::LO_v || ch == ascii::GT {
        Some(EdgeClueKind::Inequality { smaller_first: false })
    } else if ch == ascii::LO_d {
        Some(EdgeClueKind::Delta)
    } else if ch == ascii::LO_g {
        Some(EdgeClueKind::Gemini)
    } else {
        None
    }
}

/// A mark drawn on an edge of the grid is the clue that the same mark
/// names on an `edge` line: `^` (on a horizontal edge) and `<` (on a vertical
/// one) say that the piece above or to the left is the smaller, `v` and `>`
/// the reverse, and `d` and `g` are delta and gemini on either kind of edge.
pub proof fn law_grid_marks_match_edge_lines(ch: u8)
    ensures
        ch == ascii::CARET || ch == ascii::LT ==> edge_char_kind(ch) == Some(
            EdgeClueKind::Inequality { smaller_first: true },
        ),
        ch == ascii::LO_v || ch == ascii::GT ==> edge_char_kind(ch) == Some(
            EdgeClueKind::Inequality { smaller_first: false },
        ),
        ch == ascii::CARET || ch == ascii::LO_v ==> edge_char_kind(ch) == supp_edge_kind(seq![ch], true),
        ch == ascii::LT || ch == ascii::GT ==> edge_char_kind(ch) == supp_edge_kind(seq![ch], false),
        ch == ascii::LO_d || ch == ascii::LO_g ==> {
            &&& edge_char_kind(ch) == supp_edge_kind(seq![ch], true)
            &&& edge_char_kind(ch) == supp_edge_kind(seq![ch], false)
        },
{
    let t = seq![ch];
    assert(t[0] == ch);
    assert(seq![ascii::LO_d][0] == ascii::LO_d);
    assert(seq![ascii::LO_g][0] == ascii::LO_g);
    assert(seq![ascii::LT][0] == ascii::LT);
    assert(seq![ascii::GT][0] == ascii::GT);
    assert(seq![ascii::CARET][0] == ascii::CARET);
    assert(seq![ascii::LO_v][0] == ascii::LO_v);
    if ch == ascii::CARET {
        assert(t =~= seq![ascii::CARET]);
    } else if ch == ascii::LO_v {
        assert(t =~= seq![ascii::LO_v]);
    } else if ch == ascii::LT {
        assert(t =~= seq![ascii::LT]);
    } else if ch == ascii::GT {
        assert(t =~= seq![ascii::GT]);
    } else if ch == ascii::LO_d {
        assert(t =~= seq![ascii::LO_d]);
    } else if ch == ascii::LO_g {
        assert(t =~= seq![ascii::LO_g]);
    }
}

fn edge_char_to_kind(ch: u8) -> (k: Option<EdgeClueKind>)
    ensures
        k == edge_char_kind(ch),
        ch == ascii::CARET || ch == ascii::LT ==> k == Some(EdgeClueKind::Inequality { smaller_first: true }),
        ch == ascii::LO_v || ch == ascii::GT ==> k == Some(EdgeClueKind::Inequality { smaller_first: false }),
{
    if ch == ascii::CARET || ch == ascii::LT {
        Some(EdgeClueKind::Inequality { smaller_first: true })
    } else if ch == ascii::LO_v || ch == ascii::GT {
        Some(EdgeClueKind::Inequality { smaller_first: false })
    } else if ch == ascii::LO_d {
        Some(EdgeClueKind::Delta)
    } else if ch == ascii::LO_g {
        Some(EdgeClueKind::Gemini)
    } else {
        None
    }
}

/// The palisade kind named by `p0`, `p1`, `p=`, `p2`, `p3` or `p4`.
pub open spec fn palisade_of(s: Seq<u8>) -> Option<PalisadeKind> {
    if s.len() != 2 || s[0] != ascii::LO_p {
        None
    } else if s[1] == ascii::ZERO {
        Some(PalisadeKind::Zero)
    } else if s[1] == 49 {
        Some(PalisadeKind::One)
    } else if s[1] == ascii::EQ {
        Some(PalisadeKind::Opposite)
    } else if s[1] == 50 {
        Some(PalisadeKind::Adjacent)
    } else if s[1] == 51 {
        Some(PalisadeKind::Three)
    } else if s[1] == 52 {
        Some(PalisadeKind::All)
    } else {
        None
    }
}

fn parse_palistr(s: &[u8]) -> (k: Option<PalisadeKind>)
    ensures
        k == palisade_of(s@),
{
    if s.len() != 2 || s[0] != ascii::LO_p {
        return None;
    }
    let c = s[1];
    if c == ascii::ZERO {
        Some(PalisadeKind::Zero)
    } else if c == 49 {
        Some(PalisadeKind::One)
    } else if c == ascii::EQ {
        Some(PalisadeKind::Opposite)
    } else if c == 50 {
        Some(PalisadeKind::Adjacent)
    } else if c == 51 {
        Some(PalisadeKind::Three)
    } else if c == 52 {
        Some(PalisadeKind::All)
    } else {
        None
    }
}

/// A watchtower value: `!`, `@`, `#`, `$` for 1 to 4, or a number; 0 when neither.
pub open spec fn vertex_value_of(s: Seq<u8>) -> usize {
    if s == seq![ascii::BANG] {
        1
    } else if s == seq![ascii::AT] {
        2
    } else if s == seq![ascii::HASH] {
        3
    } else if s == seq![ascii::DOLLAR] {
        4
    } else {
        match parse_usize_spec_of(s) {
            Some(v) => v,
            None => 0,
        }
    }
}

pub open spec fn parse_usize_spec_of(s: Seq<u8>) -> Option<usize> {
    crate::text::parse_usize_spec(s)
}

/// Parse a watchtower value: accepts symbols ! @ # $ (w1–w4) or bare digits.
fn parse_vertex_value(s: &[u8]) -> (v: usize)
    ensures
        v == vertex_value_of(s@),
{
    if s.len() == 1 {
        let c = s[0];
        proof {
            assert(s@ == seq![c]);
        }
        if c == ascii::BANG {
            return 1;
        } else if c == ascii::AT {
            return 2;
        } else if c == ascii::HASH {
            return 3;
        } else if c == ascii::DOLLAR {
            return 4;
        }
    }
    match parse_usize(s) {
        Some(v) => v,
        None => 0,
    }
}

/// A compact compass: one or more direction letters `N`, `E`, `W`, `S`, each followed by digits.
pub open spec fn is_compact_compass_from(s: Seq<u8>, pos: int) -> bool
    decreases s.len() - pos,
{
    if pos < 0 || pos >= s.len() {
        pos == s.len()
    } else if !(s[pos] == ascii::UP_N || s[pos] == ascii::UP_E || s[pos] == ascii::UP_W || s[pos]
        == ascii::UP_S) {
        false
    } else if pos + 1 >= s.len() || !is_digit(s[pos + 1]) {
        false
    } else {
        proof {
            lemma_digits_end(s, pos + 1);
        }
        is_compact_compass_from(s, digits_end(s, pos + 1))
    }
}

/// End of the run of digits that starts at `i`.
pub open spec fn digits_end(s: Seq<u8>, i: int) -> int
    decreases s.len() - i,
{
    if 0 <= i < s.len() && is_digit(s[i]) {
        digits_end(s, i + 1)
    } else {
        i
    }
}

pub proof fn lemma_digits_end(s: Seq<u8>, i: int)
    requires
        0 <= i <= s.len(),
    ensures
        i <= digits_end(s, i) <= s.len(),
        forall|k: int| i <= k < digits_end(s, i) ==> is_digit(#[trigger] s[k]),
        digits_end(s, i) < s.len() ==> !is_digit(s[digits_end(s, i)]),
    decreases s.len() - i,
{
    if i < s.len() && is_digit(s[i]) {
        lemma_digits_end(s, i + 1);
    }
}

fn scan_digits(s: &[u8], i: usize) -> (e: usize)
    requires
        i <= s@.len(),
    ensures
        e == digits_end(s@, i as int),
{
    let mut e = i;
    while e < s.len() && is_digit_byte(s[e])
        invariant
            i <= e <= s@.len(),
            digits_end(s@, i as int) == digits_end(s@, e as int),
        decreases s@.len() - e,
    {
        e = e + 1;
    }
    e
}

fn is_compact_compass(s: &[u8]) -> (r: bool)
    ensures
        r == (s@.len() > 0 && is_compact_compass_from(s@, 0)),
{
    if s.len() == 0 {
        return false;
    }
    let mut pos: usize = 0;
    while pos < s.len()
        invariant
            pos <= s@.len(),
            s@.len() > 0,
            is_compact_compass_from(s@, 0) == is_compact_compass_from(s@, pos as int),
        decreases s@.len() - pos,
    {
        let c = s[pos];
        if !(c == ascii::UP_N || c == ascii::UP_E || c == ascii::UP_W || c == ascii::UP_S) {
            return false;
        }
        pos = pos + 1;
        if pos >= s.len() || !is_digit_byte(s[pos]) {
            return false;
        }
        proof {
            lemma_digits_end(s@, pos as int);
        }
        pos = scan_digits(s, pos);
    }
    true
}

/// The grid column index whose position lies within a token's byte range.
fn match_token_to_grid_col(tok_col: usize, tok_len: usize, grid_line_cols: &[usize]) -> (r: Option<
    usize,
>)
    requires
        tok_col + tok_len <= usize::MAX,
        strictly_increasing(grid_line_cols@),
    ensures
        r matches Some(i) ==> i < grid_line_cols@.len() && tok_col <= grid_line_cols@[i as int]
            < tok_col + tok_len && forall|k: int| 0 <= k < i ==> grid_line_cols@[k] < tok_col,
        r is None ==> forall|k: int|
            0 <= k < grid_line_cols@.len() ==> !(tok_col <= #[trigger] grid_line_cols@[k] < tok_col
                + tok_len),
{
    let end = tok_col + tok_len;
    let mut start_idx: usize = 0;
    while start_idx < grid_line_cols.len() && grid_line_cols[start_idx] < tok_col
        invariant
            start_idx <= grid_line_cols@.len(),
            forall|k: int| 0 <= k < start_idx ==> grid_line_cols@[k] < tok_col,
        decreases grid_line_cols@.len() - start_idx,
    {
        start_idx = start_idx + 1;
    }
    if start_idx < grid_line_cols.len() && grid_line_cols[start_idx] < end {
        Some(start_idx)
    } else {
        proof {
            assert forall|k: int| 0 <= k < grid_line_cols@.len() implies !(tok_col
                <= #[trigger] grid_line_cols@[k] < tok_col + tok_len) by {
                if k > start_idx {
                    assert(grid_line_cols@[start_idx as int] < grid_line_cols@[k]);
                }
            }
        }
        None
    }
}

/// The (position, length) of each token.
pub open spec fn token_pairs(t: Seq<CellToken>) -> Seq<(int, int)> {
    Seq::new(t.len(), |k: int| (t[k].col as int, t[k].len as int))
}

/// A structural token of a cell row: its byte position and length.
#[derive(Clone, Copy)]
pub struct CellToken {
    pub col: usize,
    pub len: usize,
}

/// A byte that is a structural token by itself (`<` aside).
pub open spec fn single_token_byte(ch: u8) -> bool {
    ch == ascii::PIPE || ch == ascii::DOT || ch == ascii::LO_d || ch == ascii::LO_g || ch == ascii::CARET
        || ch == ascii::LO_v || ch == ascii::GT
}

/// The structural tokens of a cell row from byte `i` on, as (position,
/// length): a single-byte separator, `<N>` with at least one digit, or a lone `<`.
pub open spec fn cell_tokens_from(s: Seq<u8>, i: int) -> Seq<(int, int)>
    decreases s.len() - i,
{
    if i < 0 || i >= s.len() {
        seq![]
    } else if single_token_byte(s[i]) {
        seq![(i, 1int)] + cell_tokens_from(s, i + 1)
    } else if s[i] == ascii::LT {
        let j = digits_end(s, i + 1);
        if i + 1 < j < s.len() && s[j] == ascii::GT {
            seq![(i, j + 1 - i)] + cell_tokens_from(s, j + 1)
        } else {
            seq![(i, 1int)] + cell_tokens_from(s, i + 1)
        }
    } else {
        cell_tokens_from(s, i + 1)
    }
}

/// Scan a cell row for structural tokens: the single-byte separators
/// `|`, `.`, `d`, `g`, `^`, `v`, `>`, `<` and the difference notation `<N>`.
#[verifier::spinoff_prover]
fn scan_cell_tokens(line: &[u8]) -> (tokens: Vec<CellToken>)
    ensures
        tokens@.len() == cell_tokens_from(line@, 0).len(),
        forall|k: int|
            0 <= k < tokens@.len() ==> (#[trigger] tokens@[k]).col as int == cell_tokens_from(line@, 0)[k].0
                && tokens@[k].len as int == cell_tokens_from(line@, 0)[k].1,
        forall|k: int|
            0 <= k < tokens@.len() ==> #[trigger] tokens@[k].col + tokens@[k].len <= line@.len()
                && tokens@[k].len >= 1,
{
    let mut tokens: Vec<CellToken> = Vec::new();
    let mut i: usize = 0;
    while i < line.len()
        invariant
            i <= line@.len(),
            forall|k: int|
                0 <= k < tokens@.len() ==> #[trigger] tokens@[k].col + tokens@[k].len <= i
                    && tokens@[k].len >= 1,
            token_pairs(tokens@) + cell_tokens_from(line@, i as int) == cell_tokens_from(line@, 0),
        decreases line@.len() - i,
    {
        let ch = line[i];
        let ghost tb = token_pairs(tokens@);
        if ch == ascii::PIPE || ch == ascii::DOT || ch == ascii::LO_d || ch == ascii::LO_g || ch
            == ascii::CARET || ch == ascii::LO_v || ch == ascii::GT {
            tokens.push(CellToken { col: i, len: 1 });
            proof {
                assert(token_pairs(tokens@) =~= tb.push((i as int, 1int)));
                assert(tb + cell_tokens_from(line@, i as int) =~= token_pairs(tokens@) + cell_tokens_from(line@, i + 1));
            }
            i = i + 1;
        } else if ch == ascii::LT {
            let j = scan_digits(line, i + 1);
            proof {
                lemma_digits_end(line@, i + 1);
            }
            if j > i + 1 && j < line.len() && line[j] == ascii::GT {
                tokens.push(CellToken { col: i, len: j + 1 - i });
                proof {
                    assert(token_pairs(tokens@) =~= tb.push((i as int, j + 1 - i)));
                    assert(tb + cell_tokens_from(line@, i as int) =~= token_pairs(tokens@) + cell_tokens_from(line@, j + 1));
                }
                i = j + 1;
            } else {
                tokens.push(CellToken { col: i, len: 1 });
                proof {
                    assert(token_pairs(tokens@) =~= tb.push((i as int, 1int)));
                    assert(tb + cell_tokens_from(line@, i as int) =~= token_pairs(tokens@) + cell_tokens_from(line@, i + 1));
                }
                i = i + 1;
            }
        } else {
            proof {
                assert(cell_tokens_from(line@, i as int) == cell_tokens_from(line@, i + 1));
            }
            i = i + 1;
        }
    }
    proof {
        assert(cell_tokens_from(line@, i as int) =~= seq![]);
        assert(token_pairs(tokens@) + seq![] =~= token_pairs(tokens@));
    }
    tokens
}

impl Parser {
    pub fn new() -> (p: Self)
        ensures
            p.grid.rows == 0,
            p.grid.cols == 0,
            p.grid.wf(),
            p.lines@.len() == 0,
            p.pre_cut_edges@.len() == 0,
            p.puzzle.cell_clues@.len() == 0,
            p.puzzle.edge_clues@.len() == 0,
            p.puzzle.vertex_clues@.len() == 0,
            p.puzzle.rules.shape_bank@.len() == 0,
            p.puzzle.rules.minimum is None,
            p.puzzle.rules.maximum is None,
            !p.puzzle.rules.mingle_shape && !p.puzzle.rules.size_separation && !p.puzzle.rules.mismatch,
            !p.puzzle.rules.match_all && !p.puzzle.rules.solitude && !p.puzzle.rules.boxy,
            !p.puzzle.rules.non_boxy && !p.puzzle.rules.bricky && !p.puzzle.rules.loopy,
            p.grid_start == 0,
            p.grid_end == 0,
            p.grid.cell_exists@.len() == 0,
    {
        Self {
            puzzle: Puzzle {
                cell_clues: Vec::new(),
                edge_clues: Vec::new(),
                vertex_clues: Vec::new(),
                rules: GlobalRules {
                    shape_bank: Vec::new(),
                    minimum: None,
                    maximum: None,
                    mingle_shape: false,
                    size_separation: false,
                    mismatch: false,
                    match_all: false,
                    solitude: false,
                    boxy: false,
                    non_boxy: false,
                    bricky: false,
                    loopy: false,
                },
            },
            grid: Grid::new(0, 0, false),
            lines: Vec::new(),
            grid_start: 0,
            grid_end: 0,
            pre_cut_edges: Vec::new(),
        }
    }
}

/// Views of nested byte vectors.
pub open spec fn lines_view(v: Seq<Vec<u8>>) -> Seq<Seq<u8>> {
    Seq::new(v.len(), |i: int| v[i]@)
}

/// The lines fit the coordinates of shapes (`i32`).
pub open spec fn lines_small(v: Seq<Vec<u8>>) -> bool {
    v.len() < i32::MAX && forall|k: int| 0 <= k < v.len() ==> (#[trigger] v[k])@.len() < i32::MAX
}

impl Parser {
    /// What the parse keeps unchanged outside the clue lists and rules.
    pub open spec fn same_frame(&self, other: &Parser) -> bool {
        &&& self.lines@ == other.lines@
        &&& self.grid_start == other.grid_start
        &&& self.grid_end == other.grid_end
        &&& self.grid.rows == other.grid.rows
        &&& self.grid.cols == other.grid.cols
        &&& self.grid.cell_exists@.len() == other.grid.cell_exists@.len()
    }

    /// Parse a puzzle from its text.
    ///
    /// The grid is the first line that starts with `+` and ends with `+`, with
    /// the run of grid rows after it; the lines before it hold the global rules
    /// and the lines after it the supplementary clues.
    pub fn parse(&mut self, input: &[u8]) -> (r: Result<(), ParseError>)
        requires
            input@.len() < i32::MAX,
        ensures
            lines_view(final(self).lines@) == input_lines(input@),
            ({
                let lines = input_lines(input@);
                let start = find_grid_start(lines, 0);
                &&& lines.len() == 0 ==> (r matches Err(e) && e.0@ == "empty input"@)
                &&& lines.len() > 0 && start is None ==> (r matches Err(e) && e.0@ == "no grid found"@)
                &&& r is Ok ==> start is Some
                &&& start matches Some(gs) ==> {
                    let ge1 = grid_run_end(lines, gs) + 1;
                    let rows = count_cell_rows(lines, gs, ge1);
                    &&& !two_columns(lines, gs, ge1) ==> (r matches Err(e) && e.0@
                        == "invalid grid width"@)
                    &&& two_columns(lines, gs, ge1) && rows == 0 ==> (r matches Err(e) && e.0@
                        == "no cell rows found"@)
                    &&& r is Err ==> !two_columns(lines, gs, ge1) || rows == 0 || exists|cm: Seq<usize>|
                        is_column_map(lines, gs, ge1, cm) && 2 * (rows + 1) * cm.len() > usize::MAX
                    &&& r is Ok ==> {
                        &&& final(self).grid_start == gs
                        &&& final(self).grid_end + 1 == ge1
                        &&& two_columns(lines, gs, ge1)
                        &&& rows >= 1
                        &&& final(self).grid.wf()
                        &&& final(self).grid.rows == rows
                        &&& exists|cm: Seq<usize>|
                            is_column_map(lines, gs, ge1, cm) && cm.len() == final(self).grid.cols + 1
                    }
                }
            }),
            r is Ok && old(self).fresh() ==> final(self).records_ok(),
    {
        let ghost fresh = self.fresh();
        let lines = read_lines(input);
        self.lines = lines;
        let ghost lv = input_lines(input@);
        proof {
            assert(lines_view(self.lines@) =~= lv);
            assert(lines_small(self.lines@));
        }
        if self.lines.len() == 0 {
            return Err(ParseError("empty input".to_string()));
        }
        let n = self.lines.len();
        let mut gs: usize = 0;
        while gs < n && !(skip_ws(&self.lines[gs], 0, self.lines[gs].len()) + 3 <= self.lines[gs].len()
            && starts_plus_exec(&self.lines[gs]) && ends_with_exec(&self.lines[gs], ascii::PLUS))
            invariant
                n == self.lines@.len(),
                gs <= n,
                lines_small(self.lines@),
                lines_view(self.lines@) == lv,
                find_grid_start(lv, 0) == find_grid_start(lv, gs as int),
            decreases n - gs,
        {
            proof {
                let l = self.lines@[gs as int]@;
                assert(l.subrange(0, l.len() as int) =~= l);
                lemma_lead_ws(l);
                assert(lv[gs as int] == l);
            }
            gs = gs + 1;
        }
        if gs == n {
            return Err(ParseError("no grid found".to_string()));
        }
        proof {
            let l = self.lines@[gs as int]@;
            assert(l.subrange(0, l.len() as int) =~= l);
            lemma_lead_ws(l);
            assert(lv[gs as int] == l);
            assert(is_grid_start(l));
        }
        self.grid_start = gs;
        let mut ge = gs;
        while ge + 1 < n && ((starts_plus_exec(&self.lines[ge + 1]) && ends_with_exec(
            &self.lines[ge + 1],
            ascii::PLUS,
        )) || (starts_pipe_exec(&self.lines[ge + 1]) && ends_with_exec(
            &self.lines[ge + 1],
            ascii::PIPE,
        )))
            invariant
                n == self.lines@.len(),
                gs <= ge < n,
                lines_view(self.lines@) == lv,
                grid_run_end(lv, gs as int) == grid_run_end(lv, ge as int),
            decreases n - ge,
        {
            proof {
                assert(lv[ge + 1] == self.lines@[ge + 1]@);
            }
            ge = ge + 1;
        }
        proof {
            if ge + 1 < n {
                assert(lv[ge + 1] == self.lines@[ge + 1]@);
            }
        }
        self.grid_end = ge;
        self.parse_rules(0, gs);
        let r = self.parse_visual_grid();
        if r.is_err() {
            return r;
        }
        self.parse_supplementary(ge + 1);
        Ok(())
    }

    /// The global rules written before the grid, lines `from..to`.
    fn parse_rules(&mut self, from: usize, to: usize)
        requires
            from <= to <= old(self).grid_start < old(self).lines@.len(),
            lines_small(old(self).lines@),
        ensures
            final(self).same_frame(old(self)),
            old(self).fresh() ==> final(self).fresh(),
    {
        let mut i = from;
        while i < to
            invariant
                from <= i <= self.grid_start + 1,
                to <= self.grid_start < self.lines@.len(),
                lines_small(self.lines@),
                self.same_frame(old(self)),
                old(self).fresh() ==> self.fresh(),
            decreases self.grid_start + 1 - i,
        {
            let line = strip_comment(&self.lines[i]);
            if line.len() == 0 {
                i = i + 1;
                continue;
            }
            if bytes_eq(&line, "precision".as_bytes()) {
                let ghost i0 = i;
                i = i + 1;
                while i < to && self.lines[i].len() == 0
                    invariant
                        i0 < i,
                        from <= i <= to <= self.grid_start < self.lines@.len(),
                    decreases to - i,
                {
                    i = i + 1;
                }
                if i < to {
                    let l = trimmed(&self.lines[i]);
                    if let Some(val) = parse_usize(&l) {
                        set_precision(&mut self.puzzle.rules, val);
                    }
                }
            } else if starts_with(&line, "precision ".as_bytes()) {
                let k = "precision ".as_bytes().len();
                let (a, b) = trim_range(&line, k, line.len());
                if let Some(val) = parse_usize_range(&line, a, b) {
                    set_precision(&mut self.puzzle.rules, val);
                }
            } else if starts_with(&line, "minimum ".as_bytes()) {
                let k = "minimum ".as_bytes().len();
                let (a, b) = trim_range(&line, k, line.len());
                self.puzzle.rules.minimum = parse_usize_range(&line, a, b);
            } else if starts_with(&line, "maximum ".as_bytes()) {
                let k = "maximum ".as_bytes().len();
                let (a, b) = trim_range(&line, k, line.len());
                self.puzzle.rules.maximum = parse_usize_range(&line, a, b);
            } else if bytes_eq(&line, "mingle shape".as_bytes()) {
                self.puzzle.rules.mingle_shape = true;
            } else if bytes_eq(&line, "size separation".as_bytes()) {
                self.puzzle.rules.size_separation = true;
            } else if bytes_eq(&line, "mismatch".as_bytes()) {
                self.puzzle.rules.mismatch = true;
            } else if bytes_eq(&line, "match".as_bytes()) {
                self.puzzle.rules.match_all = true;
            } else if bytes_eq(&line, "solitude".as_bytes()) {
                self.puzzle.rules.solitude = true;
            } else if bytes_eq(&line, "boxy".as_bytes()) {
                self.puzzle.rules.boxy = true;
            } else if bytes_eq(&line, "non-boxy".as_bytes()) {
                self.puzzle.rules.non_boxy = true;
            } else if bytes_eq(&line, "bricky".as_bytes()) {
                self.puzzle.rules.bricky = true;
            } else if bytes_eq(&line, "loopy".as_bytes()) {
                self.puzzle.rules.loopy = true;
            } else if bytes_eq(&line, "shape bank".as_bytes()) || starts_with(
                &line,
                "shape bank ".as_bytes(),
            ) {
                i = self.parse_shape_bank(i);
            }
            i = i + 1;
        }
    }

    /// A shape bank, given by names on its own line or drawn on the lines after it.
    /// Returns the index of the last line it used.
    fn parse_shape_bank(&mut self, idx: usize) -> (last: usize)
        requires
            idx < old(self).grid_start < old(self).lines@.len(),
            lines_small(old(self).lines@),
        ensures
            final(self).same_frame(old(self)),
            old(self).fresh() ==> final(self).fresh(),
            idx <= last < final(self).grid_start,
    {
        let line = slice_copy(&self.lines[idx], 0, self.lines[idx].len());
        let (a, b) = if line.len() > 11 {
            trim_range(&line, 11, line.len())
        } else {
            (0, 0)
        };
        if a < b {
            let rest = slice_copy(&line, a, b);
            let words = split_words(&rest);
            let mut w: usize = 0;
            while w < words.len()
                invariant
                    w <= words@.len(),
                    forall|k: int|
                        0 <= k < words@.len() ==> crate::text::is_word(
                            rest@,
                            #[trigger] words@[k].0 as int,
                            words@[k].1 as int,
                        ),
                    self.same_frame(old(self)),
                    old(self).fresh() ==> self.fresh(),
                decreases words@.len() - w,
            {
                let (x, y) = words[w];
                let name = slice_copy(&rest, x, y);
                if let Some(shape) = polyomino::named_shape(&name) {
                    self.puzzle.rules.shape_bank.push(shape);
                }
                w = w + 1;
            }
            return idx;
        }
        let mut i = idx + 1;
        while i < self.grid_start
            invariant
                idx < i <= self.grid_start < self.lines@.len(),
                lines_small(self.lines@),
                self.same_frame(old(self)),
                old(self).fresh() ==> self.fresh(),
            decreases self.grid_start - i,
        {
            if self.lines[i].len() == 0 {
                i = i + 1;
                continue;
            }
            let mut shape_lines: Vec<Vec<u8>> = Vec::new();
            let ghost i0 = i;
            while i < self.grid_start && self.lines[i].len() != 0
                invariant
                    idx < i0 <= i <= self.grid_start < self.lines@.len(),
                    lines_small(self.lines@),
                    self.same_frame(old(self)),
                    shape_lines@.len() == i - i0,
                    shape_lines@.len() <= i,
                    forall|k: int| 0 <= k < shape_lines@.len() ==> (#[trigger] shape_lines@[k])@.len()
                        < i32::MAX,
                decreases self.grid_start - i,
            {
                let sl = trimmed(&self.lines[i]);
                proof {
                    assert(sl@.len() <= self.lines@[i as int]@.len()) by {
                        lemma_lead_ws(self.lines@[i as int]@);
                        lemma_trail_ws(trim_start(self.lines@[i as int]@));
                    }
                }
                if (sl.len() > 0 && sl[0] == ascii::HASH) || only_hash_dot(&sl) {
                    shape_lines.push(sl);
                    i = i + 1;
                } else {
                    break;
                }
            }
            if shape_lines.len() > 0 {
                let shape = polyomino::parse_shape_bytes(&shape_lines);
                self.puzzle.rules.shape_bank.push(shape);
            } else {
                // The line cannot be read as a shape: the bank ends here.
                break;
            }
        }
        i - 1
    }
}

/// The text holds only `#` and `.`.
fn only_hash_dot(s: &[u8]) -> (r: bool)
    ensures
        r == forall|k: int| 0 <= k < s@.len() ==> #[trigger] s@[k] == ascii::HASH || s@[k] == ascii::DOT,
{
    let mut k: usize = 0;
    while k < s.len()
        invariant
            k <= s@.len(),
            forall|j: int| 0 <= j < k ==> #[trigger] s@[j] == ascii::HASH || s@[j] == ascii::DOT,
        decreases s@.len() - k,
    {
        if s[k] != ascii::HASH && s[k] != ascii::DOT {
            return false;
        }
        k = k + 1;
    }
    true
}

impl Parser {
    /// Byte positions of the vertex symbols in the edge rows of the drawn grid, sorted.
    fn build_column_map(&self) -> (cm: Vec<usize>)
        requires
            self.grid_start <= self.grid_end < self.lines@.len(),
        ensures
            strictly_increasing(cm@),
            forall|p: usize|
                cm@.contains(p) <==> is_grid_column(
                    lines_view(self.lines@),
                    self.grid_start as int,
                    self.grid_end + 1,
                    p as int,
                ),
    {
        let ghost lv = lines_view(self.lines@);
        let gs = self.grid_start;
        let nl = self.lines.len();
        let mut cm: Vec<usize> = Vec::new();
        let mut i = gs;
        while i <= self.grid_end
            invariant
                nl == self.lines@.len(),
                gs == self.grid_start <= i <= self.grid_end + 1,
                self.grid_end < self.lines@.len(),
                lv == lines_view(self.lines@),
                strictly_increasing(cm@),
                forall|p: usize| cm@.contains(p) <==> is_grid_column(lv, gs as int, i as int, p as int),
            decreases self.grid_end + 1 - i,
        {
            let line = &self.lines[i];
            let sp = starts_plus_exec(line);
            assert(lv[i as int] == line@);
            let mut j: usize = 0;
            while j < line.len()
                invariant
                    j <= line@.len(),
                    lv[i as int] == line@,
                    gs <= i < lv.len(),
                    strictly_increasing(cm@),
                    sp == starts_plus(line@),
                    forall|p: usize|
                        cm@.contains(p) <==> (is_grid_column(lv, gs as int, i as int, p as int) || (sp
                            && p < j && is_vertex_symbol(line@[p as int]))),
                decreases line@.len() - j,
            {
                if sp && is_vertex_symbol_byte(line[j]) {
                    sorted_insert(&mut cm, j);
                }
                j = j + 1;
            }
            proof {
                assert forall|p: usize| cm@.contains(p) <==> is_grid_column(
                    lv,
                    gs as int,
                    i + 1,
                    p as int,
                ) by {
                    if is_grid_column(lv, gs as int, i + 1, p as int) && !is_grid_column(
                        lv,
                        gs as int,
                        i as int,
                        p as int,
                    ) {
                        let w = choose|w: int|
                            gs <= w < i + 1 && starts_plus(#[trigger] lv[w]) && 0 <= p < lv[w].len()
                                && is_vertex_symbol(lv[w][p as int]);
                        assert(w == i);
                    }
                    if sp && p < line@.len() && is_vertex_symbol(line@[p as int]) {
                        assert(starts_plus(lv[i as int]));
                    }
                    if is_grid_column(lv, gs as int, i as int, p as int) {
                        let w = choose|w: int|
                            gs <= w < i && starts_plus(#[trigger] lv[w]) && 0 <= p < lv[w].len()
                                && is_vertex_symbol(lv[w][p as int]);
                        assert(gs <= w < i + 1);
                    }
                }
            }
            i = i + 1;
        }
        cm
    }
}

// ── Clues in range ───────────────────────────────────────────────────────────

impl Parser {
    /// Every clue and every cut edge names a cell, edge or vertex of the grid,
    /// and every shape read can be turned.
    pub open spec fn records_ok(&self) -> bool {
        &&& forall|k: int|
            0 <= k < self.puzzle.cell_clues@.len() ==> (#[trigger] self.puzzle.cell_clues@[k]).spec_cell()
                < self.grid.n_cells()
        &&& forall|k: int|
            0 <= k < self.puzzle.edge_clues@.len() ==> (#[trigger] self.puzzle.edge_clues@[k]).edge
                < self.grid.n_edges()
        &&& forall|k: int|
            0 <= k < self.puzzle.vertex_clues@.len() ==> (#[trigger] self.puzzle.vertex_clues@[k]).vertex
                < self.grid.n_vertices()
        &&& forall|k: int|
            0 <= k < self.pre_cut_edges@.len() ==> #[trigger] self.pre_cut_edges@[k] < self.grid.n_edges()
        &&& puzzle_shapes_ok(self.puzzle)
        &&& forall|k: int|
            0 <= k < self.puzzle.cell_clues@.len() ==> (#[trigger] self.puzzle.cell_clues@[k] matches CellClue::Rose {
                symbol,
                ..
            } ==> symbol <= 190)
    }

    /// No clue and no cut edge has been read yet, and every shape of the
    /// bank can be turned.
    pub open spec fn fresh(&self) -> bool {
        &&& self.puzzle.cell_clues@.len() == 0
        &&& self.puzzle.edge_clues@.len() == 0
        &&& self.puzzle.vertex_clues@.len() == 0
        &&& self.pre_cut_edges@.len() == 0
        &&& puzzle_shapes_ok(self.puzzle)
    }

    /// Only the records of clues and cut edges may differ from `o`.
    pub open spec fn same_but_records(&self, o: &Parser) -> bool {
        &&& self.same_frame(o)
        &&& self.grid == o.grid
        &&& self.puzzle.rules == o.puzzle.rules
    }

    fn add_cell_clue(&mut self, clue: CellClue)
        requires
            clue.spec_cell() < old(self).grid.n_cells(),
            clue matches CellClue::Polyomino { shape, .. } ==> polyomino::shape_ok(shape) && polyomino::shape_fits(shape),
            clue matches CellClue::Rose { symbol, .. } ==> symbol <= 190,
        ensures
            final(self).same_frame(old(self)),
            final(self).grid == old(self).grid,
            old(self).records_ok() ==> final(self).records_ok(),
            final(self).same_but_records(old(self)),
            final(self).puzzle.cell_clues@ == old(self).puzzle.cell_clues@.push(clue),
            final(self).puzzle.edge_clues == old(self).puzzle.edge_clues,
            final(self).puzzle.vertex_clues == old(self).puzzle.vertex_clues,
            final(self).pre_cut_edges == old(self).pre_cut_edges,
    {
        self.puzzle.cell_clues.push(clue);
    }

    fn add_edge_clue(&mut self, edge: EdgeId, kind: EdgeClueKind)
        requires
            edge < old(self).grid.n_edges(),
        ensures
            final(self).same_frame(old(self)),
            final(self).grid == old(self).grid,
            old(self).records_ok() ==> final(self).records_ok(),
            final(self).same_but_records(old(self)),
            final(self).puzzle.edge_clues@ == old(self).puzzle.edge_clues@.push(EdgeClue { edge, kind }),
            final(self).puzzle.cell_clues == old(self).puzzle.cell_clues,
            final(self).puzzle.vertex_clues == old(self).puzzle.vertex_clues,
            final(self).pre_cut_edges == old(self).pre_cut_edges,
    {
        self.puzzle.edge_clues.push(EdgeClue { edge, kind });
    }

    fn add_vertex_clue(&mut self, vertex: usize, value: usize)
        requires
            vertex < old(self).grid.n_vertices(),
        ensures
            final(self).same_frame(old(self)),
            final(self).grid == old(self).grid,
            old(self).records_ok() ==> final(self).records_ok(),
            final(self).same_but_records(old(self)),
            final(self).puzzle.vertex_clues@ == old(self).puzzle.vertex_clues@.push(VertexClue { vertex, value }),
            final(self).puzzle.cell_clues == old(self).puzzle.cell_clues,
            final(self).puzzle.edge_clues == old(self).puzzle.edge_clues,
            final(self).pre_cut_edges == old(self).pre_cut_edges,
    {
        self.puzzle.vertex_clues.push(VertexClue { vertex, value });
    }

    fn add_pre_cut(&mut self, edge: EdgeId)
        requires
            edge < old(self).grid.n_edges(),
        ensures
            final(self).same_frame(old(self)),
            final(self).grid == old(self).grid,
            old(self).records_ok() ==> final(self).records_ok(),
            final(self).same_but_records(old(self)),
            final(self).pre_cut_edges@ == old(self).pre_cut_edges@.push(edge),
            final(self).puzzle.cell_clues == old(self).puzzle.cell_clues,
            final(self).puzzle.edge_clues == old(self).puzzle.edge_clues,
            final(self).puzzle.vertex_clues == old(self).puzzle.vertex_clues,
    {
        self.pre_cut_edges.push(edge);
    }

    fn mark_missing(&mut self, cid: CellId)
        requires
            cid < old(self).grid.cell_exists@.len(),
        ensures
            final(self).same_frame(old(self)),
            final(self).grid.cell_exists@ == old(self).grid.cell_exists@.update(cid as int, false),
            old(self).records_ok() ==> final(self).records_ok(),
            final(self).puzzle == old(self).puzzle,
            final(self).pre_cut_edges == old(self).pre_cut_edges,
    {
        self.grid.cell_exists.set(cid, false);
    }
}

/// Every byte is a decimal digit (and there is at least one).
fn all_digit_bytes(s: &[u8]) -> (r: bool)
    ensures
        r == (s@.len() > 0 && forall|k: int| 0 <= k < s@.len() ==> is_digit(#[trigger] s@[k])),
{
    if s.len() == 0 {
        return false;
    }
    let mut k: usize = 0;
    while k < s.len()
        invariant
            k <= s@.len(),
            forall|j: int| 0 <= j < k ==> is_digit(#[trigger] s@[j]),
        decreases s@.len() - k,
    {
        if !is_digit_byte(s[k]) {
            return false;
        }
        k = k + 1;
    }
    true
}

/// The text is exactly the one byte `b`.
fn is_byte(s: &[u8], b: u8) -> (r: bool)
    ensures
        r == (s@ == seq![b]),
{
    if s.len() == 1 && s[0] == b {
        assert(s@ =~= seq![b]);
        true
    } else {
        false
    }
}

/// The number of a difference clue `<N>` written as the whole of `s`.
pub open spec fn diff_spec(s: Seq<u8>) -> Option<usize> {
    if s.len() >= 2 && s[0] == ascii::LT && s.last() == ascii::GT {
        crate::text::parse_usize_spec(s.subrange(1, s.len() - 1))
    } else {
        None
    }
}

/// The clue that a token carries: a one-byte clue mark, or a difference clue `<N>`.
pub open spec fn token_clue(tok: Seq<u8>) -> Option<EdgeClueKind> {
    if tok.len() == 1 {
        edge_char_kind(tok[0])
    } else {
        match diff_spec(tok) {
            Some(v) => Some(EdgeClueKind::Diff { value: v }),
            None => None,
        }
    }
}

/// What the text between two vertices of an edge row records for edge `e`:
/// the cut edges, then the edge clues. `.` is an uncut edge; dashes only (or
/// nothing) a cut edge; otherwise the text between the dashes is a one-byte
/// clue mark (the edge is cut, with a clue when the mark is known) or a
/// difference clue `<N>` (cut, with the clue); anything else records nothing.
pub open spec fn edge_segment_records(seg: Seq<u8>, e: EdgeId) -> (Seq<EdgeId>, Seq<EdgeClue>) {
    let (a, b) = dash_trim(seg);
    let inner = seg.subrange(a, b);
    if seg == seq![ascii::DOT] {
        (seq![], seq![])
    } else if a == b {
        (seq![e], seq![])
    } else if inner.len() == 1 || diff_spec(inner) is Some {
        (
            seq![e],
            match token_clue(inner) {
                Some(k) => seq![EdgeClue { edge: e, kind: k }],
                None => seq![],
            },
        )
    } else {
        (seq![], seq![])
    }
}

/// What the separator between two cells records for the edge `e` between
/// them: `.` nothing; otherwise a cut edge, with the clue of the token when
/// it is not a space.
pub open spec fn separator_records(sep: Seq<u8>, e: EdgeId) -> (Seq<EdgeId>, Seq<EdgeClue>) {
    if sep == seq![ascii::DOT] {
        (seq![], seq![])
    } else if sep == seq![ascii::SPACE] {
        (seq![e], seq![])
    } else {
        (
            seq![e],
            match token_clue(sep) {
                Some(k) => seq![EdgeClue { edge: e, kind: k }],
                None => seq![],
            },
        )
    }
}

/// The number between `<` and `>`, as in a difference clue `<N>`.
fn diff_value(s: &[u8]) -> (v: Option<usize>)
    ensures
        v matches Some(x) ==> s@.len() >= 2 && s@[0] == ascii::LT && s@.last() == ascii::GT
            && crate::text::parse_usize_spec(s@.subrange(1, s@.len() - 1)) == Some(x),
        v is None ==> !(s@.len() >= 2 && s@[0] == ascii::LT && s@.last() == ascii::GT
            && crate::text::parse_usize_spec(s@.subrange(1, s@.len() - 1)) is Some),
{
    if s.len() >= 2 && s[0] == ascii::LT && s[s.len() - 1] == ascii::GT {
        parse_usize_range(s, 1, s.len() - 1)
    } else {
        None
    }
}

/// `a..b` is the text without its leading and trailing dashes: dashes before
/// `a` and from `b` on, and no dash at `a` nor just before `b` when the part
/// between is not empty (text of dashes only gives `a == b == len`).
pub open spec fn dash_bounds(s: Seq<u8>, a: int, b: int) -> bool {
    &&& 0 <= a <= b <= s.len()
    &&& forall|i: int| 0 <= i < a ==> s[i] == ascii::DASH
    &&& forall|i: int| b <= i < s.len() ==> s[i] == ascii::DASH
    &&& a < s.len() ==> s[a] != ascii::DASH
    &&& a < b ==> s[b - 1] != ascii::DASH
}

/// The bounds of `dash_bounds`; there is exactly one pair.
pub open spec fn dash_trim(s: Seq<u8>) -> (int, int) {
    choose|p: (int, int)| dash_bounds(s, p.0, p.1)
}

/// Only one pair of bounds fits.
proof fn lemma_dash_bounds_unique(s: Seq<u8>, a: int, b: int)
    requires
        dash_bounds(s, a, b),
    ensures
        dash_trim(s) == (a, b),
{
    assert(dash_bounds(s, (a, b).0, (a, b).1));
    let p = dash_trim(s);
    assert(dash_bounds(s, p.0, p.1));
    if p.0 < a {
        assert(s[p.0] == ascii::DASH);
    } else if p.0 > a {
        assert(s[a] == ascii::DASH);
    }
    if p.1 < b {
        assert(s[b - 1] == ascii::DASH);
    } else if p.1 > b {
        assert(s[p.1 - 1] == ascii::DASH);
    }
}

/// Bounds of the text without its leading and trailing dashes.
fn strip_dashes(s: &[u8]) -> (r: (usize, usize))
    ensures
        dash_bounds(s@, r.0 as int, r.1 as int),
{
    let mut a: usize = 0;
    while a < s.len() && s[a] == ascii::DASH
        invariant
            a <= s@.len(),
            forall|i: int| 0 <= i < a ==> s@[i] == ascii::DASH,
        decreases s@.len() - a,
    {
        a = a + 1;
    }
    let mut b: usize = s.len();
    while b > a && s[b - 1] == ascii::DASH
        invariant
            a <= b <= s@.len(),
            forall|i: int| b <= i < s@.len() ==> s@[i] == ascii::DASH,
        decreases b,
    {
        b = b - 1;
    }
    (a, b)
}

/// Index of `col` in the column map, if it is a grid column.
fn find_column(cm: &Vec<usize>, col: usize) -> (r: Option<usize>)
    ensures
        r matches Some(k) ==> k < cm@.len() && cm@[k as int] == col,
        r is None ==> !cm@.contains(col),
{
    let mut k: usize = 0;
    while k < cm.len()
        invariant
            k <= cm@.len(),
            forall|j: int| 0 <= j < k ==> cm@[j] != col,
        decreases cm@.len() - k,
    {
        if cm[k] == col {
            return Some(k);
        }
        k = k + 1;
    }
    None
}

/// The compass values written from byte `pos` of `c` on, over `acc`: each
/// direction letter `N`, `E`, `W` or `S` is followed by its number (0 when it
/// has no digits); a later letter for a direction replaces the earlier value,
/// and any other byte is skipped with the digits after it.
pub open spec fn compass_from(c: Seq<u8>, pos: int, acc: CompassData) -> CompassData
    decreases c.len() - pos,
{
    if pos < 0 || pos >= c.len() {
        acc
    } else {
        proof {
            lemma_digits_end(c, pos + 1);
        }
        let dir = c[pos];
        let e = digits_end(c, pos + 1);
        let val = match crate::text::parse_usize_spec(c.subrange(pos + 1, e)) {
            Some(v) => v,
            None => 0,
        };
        let next = if dir == ascii::UP_N {
            CompassData { e: acc.e, w: acc.w, s: acc.s, n: Some(val) }
        } else if dir == ascii::UP_E {
            CompassData { e: Some(val), w: acc.w, s: acc.s, n: acc.n }
        } else if dir == ascii::UP_W {
            CompassData { e: acc.e, w: Some(val), s: acc.s, n: acc.n }
        } else if dir == ascii::UP_S {
            CompassData { e: acc.e, w: acc.w, s: Some(val), n: acc.n }
        } else {
            acc
        };
        compass_from(c, e, next)
    }
}

/// `new` is `old` with one polyomino clue on cell `cid` whose shape is made
/// of the named cells, when the name is known; `old` itself otherwise.
pub open spec fn named_clue_added(old: Seq<CellClue>, new: Seq<CellClue>, cid: usize, name: Seq<u8>) -> bool {
    match polyomino::named_cells(name) {
        Some(c) => new.len() == old.len() + 1 && new.drop_last() == old && (new.last() matches CellClue::Polyomino {
            cell,
            shape,
        } && cell == cid && shape@ == polyomino::shape_of(c)),
        None => new == old,
    }
}

/// The cell clues after reading the text `c` inside cell `cid`: `_` and
/// unknown text add nothing; digits an area clue; one letter `A` to `E` a
/// rose symbol; one other capital letter, or a longer name, a polyomino by
/// name; `p..` a palisade; a compact compass (`N2E1` ...) a compass clue
/// with the values of `compass_from`.
pub open spec fn cell_content_ok(old: Seq<CellClue>, new: Seq<CellClue>, cid: usize, c: Seq<u8>) -> bool {
    let digits = c.len() > 0 && forall|k: int| 0 <= k < c.len() ==> is_digit(#[trigger] c[k]);
    if c.len() == 0 || c == seq![ascii::UNDERSCORE] {
        new == old
    } else if digits {
        new == match crate::text::parse_usize_spec(c) {
            Some(v) => old.push(CellClue::Area { cell: cid, value: v }),
            None => old,
        }
    } else if c.len() == 1 {
        if ascii::UP_A <= c[0] <= ascii::UP_E {
            new == old.push(CellClue::Rose { cell: cid, symbol: (c[0] - ascii::UP_A) as u8 })
        } else if ascii::UP_F <= c[0] <= ascii::UP_Z {
            named_clue_added(old, new, cid, c)
        } else {
            new == old
        }
    } else if c[0] == ascii::LO_p {
        new == match palisade_of(c) {
            Some(k) => old.push(CellClue::Palisade { cell: cid, kind: k }),
            None => old,
        }
    } else if is_compact_compass_from(c, 0) {
        new == old.push(
            CellClue::Compass {
                cell: cid,
                compass: compass_from(c, 0, CompassData { e: None, w: None, s: None, n: None }),
            },
        )
    } else {
        named_clue_added(old, new, cid, c)
    }
}

/// The watchtower value of a vertex mark: `!` 1, `@` 2, `#` 3, `$` 4.
pub open spec fn mark_value(ch: u8) -> usize {
    if ch == ascii::BANG {
        1
    } else if ch == ascii::AT {
        2
    } else if ch == ascii::HASH {
        3
    } else {
        4
    }
}

/// The grid column `q` holds a vertex symbol on the line.
pub open spec fn plus_at(line: Seq<u8>, cm: Seq<usize>, q: int) -> bool {
    cm[q] < line.len() && is_vertex_symbol(line[cm[q] as int])
}

/// The watchtower marks among the first `p` bytes of edge row `eri`: a
/// vertex symbol other than `+` on a grid column, when the row is a row of
/// grid points.
pub open spec fn row_marks(g: Grid, line: Seq<u8>, cm: Seq<usize>, eri: int, p: int) -> Seq<VertexClue>
    decreases p,
{
    if p <= 0 {
        seq![]
    } else {
        let prev = row_marks(g, line, cm, eri, p - 1);
        let ch = line[p - 1];
        if is_vertex_symbol(ch) && cm.contains((p - 1) as usize) && ch != ascii::PLUS && eri <= g.rows {
            let idx = choose|k: int| 0 <= k < cm.len() && cm[k] == (p - 1) as usize;
            prev.push(VertexClue { vertex: g.vertex_at(eri, idx) as usize, value: mark_value(ch) })
        } else {
            prev
        }
    }
}

/// The text of the edge between grid columns `c` and `c + 1`, trimmed.
pub open spec fn edge_text(line: Seq<u8>, cm: Seq<usize>, c: int) -> Seq<u8> {
    if cm[c] + 1 < cm[c + 1] {
        trim(line.subrange(cm[c] + 1, cm[c + 1] as int))
    } else {
        seq![]
    }
}

/// What the first `c` horizontal edges below cell row `r` record: an edge
/// with vertex symbols at both ends reads its text (see
/// `edge_segment_records`); any other is cut.
pub open spec fn row_edges(g: Grid, line: Seq<u8>, cm: Seq<usize>, r: int, c: int) -> (Seq<EdgeId>, Seq<EdgeClue>)
    decreases c,
{
    if c <= 0 {
        (seq![], seq![])
    } else {
        let prev = row_edges(g, line, cm, r, c - 1);
        let e = g.h_edge_at(r, c - 1) as usize;
        let rec = if plus_at(line, cm, c - 1) && plus_at(line, cm, c) {
            edge_segment_records(edge_text(line, cm, c - 1), e)
        } else {
            (seq![e], seq![])
        };
        (prev.0 + rec.0, prev.1 + rec.1)
    }
}

/// The grid column that a token at `col` of `len` bytes stands on: the first
/// grid column within its bytes.
pub open spec fn col_match(cm: Seq<usize>, col: int, len: int) -> Option<int> {
    if exists|i: int|
        0 <= i < cm.len() && col <= #[trigger] cm[i] < col + len && forall|k: int| 0 <= k < i ==> cm[k] < col {
        Some(
            choose|i: int|
                0 <= i < cm.len() && col <= #[trigger] cm[i] < col + len && forall|k: int|
                    0 <= k < i ==> cm[k] < col,
        )
    } else {
        None
    }
}

/// For each grid column, the last of the first `j` tokens that stands on it.
pub open spec fn tok_at_spec(t: Seq<(int, int)>, cm: Seq<usize>, j: int) -> Seq<Option<(int, int)>>
    decreases j,
{
    if j <= 0 {
        Seq::new(cm.len(), |q: int| None)
    } else {
        let prev = tok_at_spec(t, cm, j - 1);
        match col_match(cm, t[j - 1].0, t[j - 1].1) {
            Some(q) => prev.update(q, Some(t[j - 1])),
            None => prev,
        }
    }
}

/// The token on each grid column of a cell row.
pub open spec fn row_tokens(line: Seq<u8>, cm: Seq<usize>) -> Seq<Option<(int, int)>> {
    tok_at_spec(cell_tokens_from(line, 0), cm, cell_tokens_from(line, 0).len() as int)
}

/// The text of cell `c` of a cell row, trimmed, when tokens stand on both
/// of its grid columns.
pub open spec fn cell_text(line: Seq<u8>, toks: Seq<Option<(int, int)>>, c: int) -> Option<Seq<u8>> {
    match (toks[c], toks[c + 1]) {
        (Some(l), Some(r)) => Some(
            if l.0 + l.1 < r.0 {
                trim(line.subrange(l.0 + l.1, r.0))
            } else {
                seq![]
            },
        ),
        _ => None,
    }
}

/// What the separators after the first `c` cells of cell row `row` record
/// (see `separator_records`): the token on the right grid column of a cell
/// with a text, but for the last cell.
pub open spec fn row_seps(g: Grid, line: Seq<u8>, toks: Seq<Option<(int, int)>>, row: int, c: int) -> (Seq<EdgeId>, Seq<EdgeClue>)
    decreases c,
{
    if c <= 0 {
        (seq![], seq![])
    } else {
        let prev = row_seps(g, line, toks, row, c - 1);
        let k = c - 1;
        if cell_text(line, toks, k) is Some && k + 1 < g.cols {
            let r = toks[k + 1]->0;
            let rec = separator_records(line.subrange(r.0, r.0 + r.1), g.v_edge_at(row, k) as usize);
            (prev.0 + rec.0, prev.1 + rec.1)
        } else {
            prev
        }
    }
}

/// The cells that exist after reading the first `m` cells of cell row
/// `row`: a cell without a text, or with an empty one, is missing.
pub open spec fn row_exists(ex: Seq<bool>, g: Grid, line: Seq<u8>, toks: Seq<Option<(int, int)>>, row: int, m: int) -> Seq<bool> {
    Seq::new(
        ex.len(),
        |x: int|
            if row * g.cols <= x < row * g.cols + m && !(cell_text(line, toks, x - row * g.cols) matches Some(
                t,
            ) && t.len() > 0) {
                false
            } else {
                ex[x]
            },
    )
}

/// The vertical edges among the first `c` of cell row `row` between an
/// existing and a missing cell.
pub open spec fn mismatch_cuts(g: Grid, ex: Seq<bool>, row: int, c: int) -> Seq<EdgeId>
    decreases c,
{
    if c <= 0 {
        seq![]
    } else {
        mismatch_cuts(g, ex, row, c - 1) + if ex[g.cell_at(row, c - 1)] != ex[g.cell_at(row, c)] {
            seq![g.v_edge_at(row, c - 1) as usize]
        } else {
            seq![]
        }
    }
}

/// `chain` steps through the cell clues of a cell row, cell by cell, from
/// `old`: the text of a cell is read as `cell_content_ok` says.
pub open spec fn row_clue_chain(
    old: Seq<CellClue>,
    chain: Seq<Seq<CellClue>>,
    g: Grid,
    line: Seq<u8>,
    toks: Seq<Option<(int, int)>>,
    row: int,
    m: int,
) -> bool {
    &&& chain.len() == m + 1
    &&& chain[0] == old
    &&& forall|c: int|
        0 <= c < m ==> match cell_text(line, toks, c) {
            Some(t) => cell_content_ok(chain[c], #[trigger] chain[c + 1], g.cell_at(row, c) as usize, t),
            None => chain[c + 1] == chain[c],
        }
}

/// The view of a token.
pub open spec fn tok_view(t: Option<CellToken>) -> Option<(int, int)> {
    match t {
        Some(k) => Some((k.col as int, k.len as int)),
        None => None,
    }
}

/// The table of tokens keeps one entry per grid column.
proof fn lemma_tok_at_len(t: Seq<(int, int)>, cm: Seq<usize>, j: int)
    ensures
        tok_at_spec(t, cm, j).len() == cm.len(),
    decreases j,
{
    if j > 0 {
        lemma_tok_at_len(t, cm, j - 1);
    }
}

impl Parser {
    /// The clue written inside cell `cid`.
    fn parse_cell_content(&mut self, content: &[u8], cid: CellId)
        requires
            old(self).grid.wf(),
            cid < old(self).grid.n_cells(),
        ensures
            final(self).same_frame(old(self)),
            old(self).records_ok() ==> final(self).records_ok(),
            final(self).puzzle.rules == old(self).puzzle.rules,
            final(self).puzzle.edge_clues == old(self).puzzle.edge_clues,
            final(self).puzzle.vertex_clues == old(self).puzzle.vertex_clues,
            final(self).pre_cut_edges == old(self).pre_cut_edges,
            content@.len() == 0 ==> final(self).grid.cell_exists@ == old(self).grid.cell_exists@.update(cid as int, false),
            content@.len() > 0 ==> final(self).grid == old(self).grid,
            cell_content_ok(old(self).puzzle.cell_clues@, final(self).puzzle.cell_clues@, cid, content@),
    {
        let ghost cc0 = self.puzzle.cell_clues@;
        if content.len() == 0 {
            self.mark_missing(cid);
        } else if is_byte(content, ascii::UNDERSCORE) {
        } else if all_digit_bytes(content) {
            if let Some(value) = parse_usize(content) {
                self.add_cell_clue(CellClue::Area { cell: cid, value });
            }
        } else if content.len() == 1 {
            let ch = content[0];
            if ch >= ascii::UP_A && ch <= ascii::UP_E {
                self.add_cell_clue(CellClue::Rose { cell: cid, symbol: ch - ascii::UP_A });
            } else if ch >= ascii::UP_F && ch <= ascii::UP_Z {
                if let Some(shape) = polyomino::named_shape(content) {
                    self.add_cell_clue(CellClue::Polyomino { cell: cid, shape });
                    proof {
                        assert(self.puzzle.cell_clues@.drop_last() =~= cc0);
                    }
                }
            }
        } else if content[0] == ascii::LO_p {
            if let Some(kind) = parse_palistr(content) {
                self.add_cell_clue(CellClue::Palisade { cell: cid, kind });
            }
        } else if is_compact_compass(content) {
            let mut compass = CompassData { e: None, w: None, s: None, n: None };
            let ghost target = compass_from(content@, 0, compass);
            let mut pos: usize = 0;
            while pos < content.len()
                invariant
                    pos <= content@.len(),
                    compass_from(content@, pos as int, compass) == target,
                decreases content@.len() - pos,
            {
                let dir = content[pos];
                pos = pos + 1;
                let start = pos;
                proof {
                    lemma_digits_end(content@, pos as int);
                }
                pos = scan_digits(content, pos);
                let val = match parse_usize_range(content, start, pos) {
                    Some(v) => v,
                    None => 0,
                };
                if dir == ascii::UP_N {
                    compass.n = Some(val);
                } else if dir == ascii::UP_E {
                    compass.e = Some(val);
                } else if dir == ascii::UP_W {
                    compass.w = Some(val);
                } else if dir == ascii::UP_S {
                    compass.s = Some(val);
                }
            }
            self.add_cell_clue(CellClue::Compass { cell: cid, compass });
        } else if let Some(shape) = polyomino::named_shape(content) {
            self.add_cell_clue(CellClue::Polyomino { cell: cid, shape });
            proof {
                assert(self.puzzle.cell_clues@.drop_last() =~= cc0);
            }
        }
    }

    /// The text between two vertices of an edge row, for horizontal edge `eid`.
    fn process_edge_segment(&mut self, seg: &[u8], eid: EdgeId)
        requires
            eid < old(self).grid.n_edges(),
        ensures
            final(self).same_frame(old(self)),
            final(self).grid == old(self).grid,
            old(self).records_ok() ==> final(self).records_ok(),
            final(self).same_but_records(old(self)),
            final(self).pre_cut_edges@ == old(self).pre_cut_edges@ + edge_segment_records(seg@, eid).0,
            final(self).puzzle.edge_clues@ == old(self).puzzle.edge_clues@ + edge_segment_records(seg@, eid).1,
            final(self).puzzle.cell_clues == old(self).puzzle.cell_clues,
            final(self).puzzle.vertex_clues == old(self).puzzle.vertex_clues,
    {
        let ghost old_pre = self.pre_cut_edges@;
        let ghost old_ec = self.puzzle.edge_clues@;
        if is_byte(seg, ascii::DOT) {
            proof {
                assert(old_pre + seq![] =~= old_pre);
                assert(old_ec + seq![] =~= old_ec);
            }
            return;
        }
        let (a, b) = strip_dashes(seg);
        proof {
            lemma_dash_bounds_unique(seg@, a as int, b as int);
        }
        if a == b {
            // Empty, or dashes only: a cut edge.
            self.add_pre_cut(eid);
            proof {
                assert(old_pre.push(eid) =~= old_pre + seq![eid]);
                assert(old_ec + seq![] =~= old_ec);
            }
            return;
        }
        let inner = slice_copy(seg, a, b);
        if inner.len() == 1 {
            self.add_pre_cut(eid);
            proof {
                assert(old_pre.push(eid) =~= old_pre + seq![eid]);
            }
            if let Some(kind) = edge_char_to_kind(inner[0]) {
                self.add_edge_clue(eid, kind);
                proof {
                    assert(old_ec.push(EdgeClue { edge: eid, kind }) =~= old_ec + seq![EdgeClue { edge: eid, kind }]);
                }
            } else {
                proof {
                    assert(old_ec + seq![] =~= old_ec);
                }
            }
        } else if let Some(value) = diff_value(&inner) {
            self.add_pre_cut(eid);
            self.add_edge_clue(eid, EdgeClueKind::Diff { value });
            proof {
                assert(old_pre.push(eid) =~= old_pre + seq![eid]);
                let c = EdgeClue { edge: eid, kind: EdgeClueKind::Diff { value } };
                assert(old_ec.push(c) =~= old_ec + seq![c]);
            }
        } else {
            proof {
                assert(old_pre + seq![] =~= old_pre);
                assert(old_ec + seq![] =~= old_ec);
            }
        }
    }

    /// The separator token between cells (row, col) and (row, col + 1).
    fn parse_v_separator(&mut self, row: usize, col: usize, sep: &[u8])
        requires
            old(self).grid.wf(),
            row < old(self).grid.rows,
            col + 1 < old(self).grid.cols,
        ensures
            final(self).same_frame(old(self)),
            final(self).grid == old(self).grid,
            old(self).records_ok() ==> final(self).records_ok(),
            ({
                let rec = separator_records(sep@, old(self).grid.v_edge_at(row as int, col as int) as usize);
                &&& final(self).same_but_records(old(self))
                &&& final(self).pre_cut_edges@ == old(self).pre_cut_edges@ + rec.0
                &&& final(self).puzzle.edge_clues@ == old(self).puzzle.edge_clues@ + rec.1
                &&& final(self).puzzle.cell_clues == old(self).puzzle.cell_clues
                &&& final(self).puzzle.vertex_clues == old(self).puzzle.vertex_clues
            }),
    {
        let ghost old_pre = self.pre_cut_edges@;
        let ghost old_ec = self.puzzle.edge_clues@;
        if is_byte(sep, ascii::DOT) {
            proof {
                assert(old_pre + seq![] =~= old_pre);
                assert(old_ec + seq![] =~= old_ec);
            }
            return;
        }
        let eid = self.grid.v_edge(row, col);
        self.add_pre_cut(eid);
        proof {
            assert(old_pre.push(eid) =~= old_pre + seq![eid]);
        }
        if !is_byte(sep, ascii::SPACE) {
            if sep.len() == 1 {
                if let Some(kind) = edge_char_to_kind(sep[0]) {
                    self.add_edge_clue(eid, kind);
                    proof {
                        assert(old_ec.push(EdgeClue { edge: eid, kind }) =~= old_ec + seq![EdgeClue { edge: eid, kind }]);
                    }
                } else {
                    proof {
                        assert(old_ec + seq![] =~= old_ec);
                    }
                }
            } else if let Some(value) = diff_value(sep) {
                self.add_edge_clue(eid, EdgeClueKind::Diff { value });
                proof {
                    let c = EdgeClue { edge: eid, kind: EdgeClueKind::Diff { value } };
                    assert(old_ec.push(c) =~= old_ec + seq![c]);
                }
            } else {
                proof {
                    assert(old_ec + seq![] =~= old_ec);
                }
            }
        } else {
            proof {
                assert(old_ec + seq![] =~= old_ec);
            }
        }
    }
}


// ── The drawn grid ───────────────────────────────────────────────────────────

/// Two distinct byte positions are grid columns.
pub open spec fn two_columns(lines: Seq<Seq<u8>>, from: int, to: int) -> bool {
    exists|p: int, q: int|
        p < q && #[trigger] is_grid_column(lines, from, to, p) && #[trigger] is_grid_column(
            lines,
            from,
            to,
            q,
        )
}

/// `cm` lists the grid columns in increasing order.
pub open spec fn is_column_map(lines: Seq<Seq<u8>>, from: int, to: int, cm: Seq<usize>) -> bool {
    &&& strictly_increasing(cm)
    &&& forall|p: usize| cm.contains(p) <==> is_grid_column(lines, from, to, p as int)
}

/// Every line fits the coordinates of shapes.
pub open spec fn lines_fit(lines: Seq<Seq<u8>>) -> bool {
    forall|k: int| 0 <= k < lines.len() ==> (#[trigger] lines[k]).len() < i32::MAX
}

proof fn lemma_two_columns(lines: Seq<Seq<u8>>, from: int, to: int, cm: Seq<usize>)
    requires
        is_column_map(lines, from, to, cm),
        lines_fit(lines),
        0 <= from,
        to <= lines.len(),
    ensures
        two_columns(lines, from, to) <==> cm.len() >= 2,
{
    if cm.len() >= 2 {
        assert(cm.contains(cm[0]));
        assert(cm.contains(cm[1]));
        assert(is_grid_column(lines, from, to, cm[0] as int));
        assert(is_grid_column(lines, from, to, cm[1] as int));
    }
    if two_columns(lines, from, to) {
        let (p, q) = choose|p: int, q: int|
            p < q && #[trigger] is_grid_column(lines, from, to, p) && #[trigger] is_grid_column(
                lines,
                from,
                to,
                q,
            );
        let wp = choose|w: int|
            from <= w < to && starts_plus(#[trigger] lines[w]) && 0 <= p < lines[w].len()
                && is_vertex_symbol(lines[w][p]);
        let wq = choose|w: int|
            from <= w < to && starts_plus(#[trigger] lines[w]) && 0 <= q < lines[w].len()
                && is_vertex_symbol(lines[w][q]);
        assert(lines[wp].len() < i32::MAX);
        assert(lines[wq].len() < i32::MAX);
        assert(is_grid_column(lines, from, to, (p as usize) as int));
        assert(is_grid_column(lines, from, to, (q as usize) as int));
        assert(cm.contains(p as usize));
        assert(cm.contains(q as usize));
        if cm.len() < 2 {
            let a = choose|a: int| 0 <= a < cm.len() && cm[a] == p as usize;
            let b = choose|b: int| 0 <= b < cm.len() && cm[b] == q as usize;
            assert(a == b);
        }
    }
}

proof fn lemma_count_cell_rows_mono(lines: Seq<Seq<u8>>, from: int, a: int, b: int)
    requires
        from <= a <= b,
    ensures
        count_cell_rows(lines, from, a) <= count_cell_rows(lines, from, b),
    decreases b - a,
{
    if a < b {
        lemma_count_cell_rows_mono(lines, from, a, b - 1);
    }
}

proof fn lemma_count_cell_rows_bound(lines: Seq<Seq<u8>>, from: int, to: int)
    requires
        from <= to,
    ensures
        count_cell_rows(lines, from, to) <= to - from,
    decreases to - from,
{
    if from < to {
        lemma_count_cell_rows_bound(lines, from, to - 1);
    }
}

impl Parser {
    /// The common frame of the steps that read the drawn grid.
    pub open spec fn grid_frame(&self, rows: usize, cols: usize) -> bool {
        &&& self.grid.wf()
        &&& self.grid.rows == rows
        &&& self.grid.cols == cols
        &&& self.grid_start <= self.grid_end < self.lines@.len()
        &&& lines_small(self.lines@)
    }

    /// Cell row `row` of the grid, drawn on line `i`.
    fn parse_cell_row(&mut self, i: usize, row: usize, cm: &Vec<usize>)
        requires
            old(self).grid_frame(old(self).grid.rows, old(self).grid.cols),
            i < old(self).lines@.len(),
            row < old(self).grid.rows,
            cm@.len() == old(self).grid.cols + 1,
            strictly_increasing(cm@),
        ensures
            final(self).same_frame(old(self)),
            final(self).grid_frame(old(self).grid.rows, old(self).grid.cols),
            old(self).records_ok() ==> final(self).records_ok(),
            ({
                let line = old(self).lines@[i as int]@;
                let g = old(self).grid;
                let toks = row_tokens(line, cm@);
                let ex = row_exists(g.cell_exists@, g, line, toks, row as int, g.cols as int);
                let seps = row_seps(g, line, toks, row as int, g.cols as int);
                &&& final(self).puzzle.rules == old(self).puzzle.rules
                &&& final(self).puzzle.vertex_clues == old(self).puzzle.vertex_clues
                &&& final(self).grid.cell_exists@ == ex
                &&& final(self).puzzle.edge_clues@ == old(self).puzzle.edge_clues@ + seps.1
                &&& final(self).pre_cut_edges@ == old(self).pre_cut_edges@ + seps.0 + mismatch_cuts(
                    g,
                    ex,
                    row as int,
                    g.cols - 1,
                )
                &&& exists|chain: Seq<Seq<CellClue>>|
                    row_clue_chain(old(self).puzzle.cell_clues@, chain, g, line, toks, row as int, g.cols as int)
                        && chain.last() == final(self).puzzle.cell_clues@
            }),
    {
        let ghost rows = self.grid.rows;
        let ghost cols0 = self.grid.cols;
        let ghost s0 = *self;
        let ghost g0 = self.grid;
        let line = slice_copy(&self.lines[i], 0, self.lines[i].len());
        proof {
            assert(line@ =~= self.lines@[i as int]@);
        }
        let ghost tv = cell_tokens_from(line@, 0);
        let tokens = scan_cell_tokens(&line);
        let ll = line.len();
        let ncm = cm.len();
        let mut tok_at: Vec<Option<CellToken>> = Vec::new();
        let mut k: usize = 0;
        while k < ncm
            invariant
                k <= ncm,
                tok_at@.len() == k,
                forall|j: int| 0 <= j < k ==> (#[trigger] tok_at@[j]) is None,
            decreases ncm - k,
        {
            tok_at.push(None);
            k = k + 1;
        }
        proof {
            lemma_tok_at_len(tv, cm@, 0);
            assert forall|q: int| 0 <= q < ncm implies #[trigger] tok_view(tok_at@[q]) == tok_at_spec(tv, cm@, 0)[q] by {
            }
        }
        let mut j: usize = 0;
        while j < tokens.len()
            invariant
                j <= tokens@.len(),
                ll == line@.len(),
                tok_at@.len() == ncm == cm@.len(),
                strictly_increasing(cm@),
                tokens@.len() == tv.len(),
                forall|t: int|
                    0 <= t < tokens@.len() ==> (#[trigger] tokens@[t]).col as int == tv[t].0 && tokens@[t].len as int
                        == tv[t].1,
                forall|t: int|
                    0 <= t < tokens@.len() ==> #[trigger] tokens@[t].col + tokens@[t].len <= line@.len()
                        && tokens@[t].len >= 1,
                forall|q: int|
                    0 <= q < ncm ==> (#[trigger] tok_at@[q] matches Some(tk) ==> tk.col + tk.len
                        <= line@.len()),
                tok_at_spec(tv, cm@, j as int).len() == ncm,
                forall|q: int| 0 <= q < ncm ==> #[trigger] tok_view(tok_at@[q]) == tok_at_spec(tv, cm@, j as int)[q],
            decreases tokens@.len() - j,
        {
            let t = tokens[j];
            let m = match_token_to_grid_col(t.col, t.len, cm);
            proof {
                lemma_tok_at_len(tv, cm@, j + 1);
                let cm_s = cm@;
                let col = tv[j as int].0;
                let len = tv[j as int].1;
                match m {
                    Some(idx) => {
                        assert(0 <= idx < cm_s.len() && col <= cm_s[idx as int] < col + len && forall|k2: int|
                            0 <= k2 < idx ==> cm_s[k2] < col);
                        let w = choose|w: int|
                            0 <= w < cm_s.len() && col <= #[trigger] cm_s[w] < col + len && forall|k2: int|
                                0 <= k2 < w ==> cm_s[k2] < col;
                        if w < idx {
                            assert(cm_s[w] < col);
                        } else if w > idx {
                            assert(cm_s[idx as int] < col);
                        }
                        assert(col_match(cm_s, col, len) == Some(idx as int));
                    },
                    None => {
                        assert(col_match(cm_s, col, len) is None);
                    },
                }
            }
            if let Some(idx) = m {
                tok_at.set(idx, Some(t));
            }
            j = j + 1;
        }
        let ghost toks = tok_at_spec(tv, cm@, tv.len() as int);
        proof {
            assert(toks == row_tokens(line@, cm@));
        }
        let cols = self.grid.cols;
        let ghost mut chain: Seq<Seq<CellClue>> = seq![self.puzzle.cell_clues@];
        let mut c: usize = 0;
        while c < cols
            invariant
                c <= cols == cols0,
                self.grid_frame(rows, cols0),
                self.same_frame(old(self)),
                s0 == *old(self),
                g0 == s0.grid,
                row < rows,
                ll == line@.len(),
                line@ == s0.lines@[i as int]@,
                tok_at@.len() == cols + 1,
                toks.len() == cols + 1,
                forall|q: int| 0 <= q <= cols ==> #[trigger] tok_view(tok_at@[q]) == toks[q],
                forall|q: int|
                    0 <= q <= cols ==> (#[trigger] tok_at@[q] matches Some(tk) ==> tk.col + tk.len
                        <= line@.len()),
                old(self).records_ok() ==> self.records_ok(),
                self.puzzle.rules == s0.puzzle.rules,
                self.puzzle.vertex_clues == s0.puzzle.vertex_clues,
                self.grid.cell_exists@ == row_exists(g0.cell_exists@, g0, line@, toks, row as int, c as int),
                self.puzzle.edge_clues@ == s0.puzzle.edge_clues@ + row_seps(g0, line@, toks, row as int, c as int).1,
                self.pre_cut_edges@ == s0.pre_cut_edges@ + row_seps(g0, line@, toks, row as int, c as int).0,
                row_clue_chain(s0.puzzle.cell_clues@, chain, g0, line@, toks, row as int, c as int),
                chain.last() == self.puzzle.cell_clues@,
            decreases cols - c,
        {
            proof {
                lemma_index_in_box(row as int, c as int, rows as int, cols as int);
                self.grid.lemma_sizes();
            }
            let cid = self.grid.cell_id(row, c);
            let left = tok_at[c];
            let right = tok_at[c + 1];
            let ghost ex_b = self.grid.cell_exists@;
            let ghost ec_b = self.puzzle.edge_clues@;
            let ghost pre_b = self.pre_cut_edges@;
            let ghost cc_b = self.puzzle.cell_clues@;
            let ghost rs = row_seps(g0, line@, toks, row as int, c as int);
            proof {
                assert(tok_view(tok_at@[c as int]) == toks[c as int]);
                assert(tok_view(tok_at@[c + 1]) == toks[c + 1]);
            }
            match (left, right) {
                (Some(lt), Some(rt)) => {
                    let cs = lt.col + lt.len;
                    let ce = rt.col;
                    let content = if cs < ce {
                        let (a, b) = trim_range(&line, cs, ce);
                        slice_copy(&line, a, b)
                    } else {
                        Vec::new()
                    };
                    proof {
                        assert(cell_text(line@, toks, c as int) == Some(content@));
                    }
                    self.parse_cell_content(&content, cid);
                    proof {
                        chain = chain.push(self.puzzle.cell_clues@);
                    }
                    if c + 1 < cols {
                        let sep = slice_copy(&line, rt.col, rt.col + rt.len);
                        self.parse_v_separator(row, c, &sep);
                        proof {
                            let rec = separator_records(sep@, g0.v_edge_at(row as int, c as int) as usize);
                            assert(pre_b + rec.0 =~= s0.pre_cut_edges@ + (rs.0 + rec.0));
                            assert(ec_b + rec.1 =~= s0.puzzle.edge_clues@ + (rs.1 + rec.1));
                        }
                    }
                },
                _ => {
                    proof {
                        assert(cell_text(line@, toks, c as int) is None);
                    }
                    self.mark_missing(cid);
                    proof {
                        chain = chain.push(self.puzzle.cell_clues@);
                    }
                },
            }
            proof {
                assert(self.grid.cell_exists@ =~= row_exists(g0.cell_exists@, g0, line@, toks, row as int, c + 1));
                assert(chain.len() == c + 2);
                assert forall|c2: int| 0 <= c2 < c + 1 implies match cell_text(line@, toks, c2) {
                    Some(t) => cell_content_ok(chain[c2], #[trigger] chain[c2 + 1], g0.cell_at(row as int, c2) as usize, t),
                    None => chain[c2 + 1] == chain[c2],
                } by {
                    if c2 < c {
                        assert(chain[c2] == chain.drop_last()[c2]);
                        assert(chain[c2 + 1] == chain.drop_last()[c2 + 1]);
                    } else {
                        assert(chain[c2] == cc_b);
                    }
                }
            }
            c = c + 1;
        }
        let ghost ex = self.grid.cell_exists@;
        let ghost pre1 = self.pre_cut_edges@;
        proof {
            assert(pre1 + seq![] =~= pre1);
        }
        if cols >= 1 {
            let mut c: usize = 0;
            while c + 1 < cols
                invariant
                    c + 1 <= cols == cols0,
                    self.grid_frame(rows, cols0),
                    self.same_frame(old(self)),
                    row < rows,
                    old(self).records_ok() ==> self.records_ok(),
                    self.grid.cell_exists@ == ex,
                    self.puzzle.rules == s0.puzzle.rules,
                    self.puzzle.vertex_clues == s0.puzzle.vertex_clues,
                    self.puzzle.edge_clues@ == s0.puzzle.edge_clues@ + row_seps(g0, line@, toks, row as int, cols as int).1,
                    self.puzzle.cell_clues@ == chain.last(),
                    g0 == s0.grid,
                    self.grid.rows == g0.rows,
                    self.grid.cols == g0.cols,
                    self.pre_cut_edges@ == pre1 + mismatch_cuts(g0, ex, row as int, c as int),
                decreases cols - c,
            {
                proof {
                    lemma_index_in_box(row as int, c as int, rows as int, cols as int);
                    lemma_index_in_box(row as int, c + 1, rows as int, cols as int);
                    self.grid.lemma_sizes();
                }
                let ghost pre_b = self.pre_cut_edges@;
                let left_cid = self.grid.cell_id(row, c);
                let right_cid = self.grid.cell_id(row, c + 1);
                if self.grid.cell_exists[left_cid] != self.grid.cell_exists[right_cid] {
                    let e = self.grid.v_edge(row, c);
                    self.add_pre_cut(e);
                    proof {
                        assert(pre_b.push(e) =~= pre1 + mismatch_cuts(g0, ex, row as int, c + 1));
                    }
                } else {
                    proof {
                        assert(pre_b =~= pre1 + mismatch_cuts(g0, ex, row as int, c + 1));
                    }
                }
                c = c + 1;
            }
        } else {
            proof {
                assert(mismatch_cuts(g0, ex, row as int, cols - 1) == Seq::<EdgeId>::empty());
            }
        }
    }

    /// Edge row number `eri` of the grid (0 for the top border), drawn on line `i`:
    /// its watchtower marks (see `row_marks`) and, for an edge row between
    /// two cell rows, its horizontal edges (see `row_edges`).
    fn parse_edge_row(&mut self, i: usize, eri: usize, cm: &Vec<usize>)
        requires
            old(self).grid_frame(old(self).grid.rows, old(self).grid.cols),
            i < old(self).lines@.len(),
            cm@.len() == old(self).grid.cols + 1,
            strictly_increasing(cm@),
        ensures
            final(self).same_frame(old(self)),
            final(self).grid_frame(old(self).grid.rows, old(self).grid.cols),
            old(self).records_ok() ==> final(self).records_ok(),
            final(self).same_but_records(old(self)),
            final(self).puzzle.cell_clues == old(self).puzzle.cell_clues,
            ({
                let line = old(self).lines@[i as int]@;
                let g = old(self).grid;
                &&& final(self).puzzle.vertex_clues@ == old(self).puzzle.vertex_clues@ + row_marks(
                    g,
                    line,
                    cm@,
                    eri as int,
                    line.len() as int,
                )
                &&& 1 <= eri < g.rows ==> {
                    &&& final(self).pre_cut_edges@ == old(self).pre_cut_edges@ + row_edges(
                        g,
                        line,
                        cm@,
                        eri - 1,
                        g.cols as int,
                    ).0
                    &&& final(self).puzzle.edge_clues@ == old(self).puzzle.edge_clues@ + row_edges(
                        g,
                        line,
                        cm@,
                        eri - 1,
                        g.cols as int,
                    ).1
                }
                &&& !(1 <= eri < g.rows) ==> {
                    &&& final(self).pre_cut_edges == old(self).pre_cut_edges
                    &&& final(self).puzzle.edge_clues == old(self).puzzle.edge_clues
                }
            }),
    {
        let ghost rows0 = self.grid.rows;
        let ghost cols0 = self.grid.cols;
        let ghost s0 = *self;
        let line = slice_copy(&self.lines[i], 0, self.lines[i].len());
        proof {
            assert(line@ =~= self.lines@[i as int]@);
        }
        let ncm = cm.len();
        let mut has_plus: Vec<bool> = Vec::new();
        let mut k: usize = 0;
        while k < ncm
            invariant
                k <= ncm,
                has_plus@.len() == k,
                forall|j: int| 0 <= j < k ==> !(#[trigger] has_plus@[j]),
            decreases ncm - k,
        {
            has_plus.push(false);
            k = k + 1;
        }
        let mut p: usize = 0;
        while p < line.len()
            invariant
                p <= line@.len(),
                has_plus@.len() == ncm == cm@.len() == cols0 + 1,
                forall|q: int| 0 <= q < ncm ==> #[trigger] has_plus@[q] ==> cm@[q] < line@.len(),
                forall|q: int| 0 <= q < ncm ==> #[trigger] has_plus@[q] == (cm@[q] < p && is_vertex_symbol(
                    line@[cm@[q] as int],
                )),
                strictly_increasing(cm@),
                s0 == *old(self),
                self.grid_frame(rows0, cols0),
                self.same_frame(old(self)),
                self.same_but_records(old(self)),
                self.puzzle.cell_clues == s0.puzzle.cell_clues,
                self.puzzle.edge_clues == s0.puzzle.edge_clues,
                self.pre_cut_edges == s0.pre_cut_edges,
                self.puzzle.vertex_clues@ == s0.puzzle.vertex_clues@ + row_marks(
                    s0.grid,
                    line@,
                    cm@,
                    eri as int,
                    p as int,
                ),
                old(self).records_ok() ==> self.records_ok(),
            decreases line@.len() - p,
        {
            let ch = line[p];
            let ghost vc_before = self.puzzle.vertex_clues@;
            let ghost hp_before = has_plus@;
            if is_vertex_symbol_byte(ch) {
                if let Some(idx) = find_column(cm, p) {
                    proof {
                        assert(cm@.contains(p));
                        let k = choose|k: int| 0 <= k < cm@.len() && cm@[k] == (p as int) as usize;
                        if k < idx {
                            assert(cm@[k] < cm@[idx as int]);
                        } else if k > idx {
                            assert(cm@[idx as int] < cm@[k]);
                        }
                    }
                    has_plus.set(idx, true);
                    if ch != ascii::PLUS && eri <= self.grid.rows {
                        let val: usize = if ch == ascii::BANG {
                            1
                        } else if ch == ascii::AT {
                            2
                        } else if ch == ascii::HASH {
                            3
                        } else {
                            4
                        };
                        let v = self.grid.vertex(eri, idx);
                        self.add_vertex_clue(v, val);
                    }
                    proof {
                        assert(s0.puzzle.vertex_clues@ + row_marks(s0.grid, line@, cm@, eri as int, p + 1)
                            =~= self.puzzle.vertex_clues@);
                    }
                } else {
                    proof {
                        assert(!cm@.contains(p));
                    }
                }
            }
            proof {
                assert forall|q: int| 0 <= q < ncm implies #[trigger] has_plus@[q] == (cm@[q] < p + 1
                    && is_vertex_symbol(line@[cm@[q] as int])) by {
                    if cm@[q] == p {
                        assert(cm@.contains(p));
                    }
                }
            }
            p = p + 1;
        }
        proof {
            assert(s0.puzzle.vertex_clues@ + seq![] =~= s0.puzzle.vertex_clues@);
        }
        let rows = self.grid.rows;
        let cols = self.grid.cols;
        let ghost vc1 = self.puzzle.vertex_clues;
        proof {
            assert(s0.pre_cut_edges@ + seq![] =~= s0.pre_cut_edges@);
            assert(s0.puzzle.edge_clues@ + seq![] =~= s0.puzzle.edge_clues@);
        }
        if eri >= 1 && eri < rows {
            let r = eri - 1;
            let mut c: usize = 0;
            while c < cols
                invariant
                    c <= cols == cols0,
                    r + 1 < rows == rows0,
                    has_plus@.len() == cm@.len() == cols0 + 1,
                    forall|q: int| 0 <= q < cm@.len() ==> #[trigger] has_plus@[q] ==> cm@[q] < line@.len(),
                    strictly_increasing(cm@),
                    self.grid_frame(rows0, cols0),
                    self.same_frame(old(self)),
                    old(self).records_ok() ==> self.records_ok(),
                    s0 == *old(self),
                    line@ == s0.lines@[i as int]@,
                    r == eri - 1,
                    forall|q: int| 0 <= q < cm@.len() ==> #[trigger] has_plus@[q] == plus_at(line@, cm@, q),
                    self.same_but_records(old(self)),
                    self.puzzle.cell_clues == s0.puzzle.cell_clues,
                    self.puzzle.vertex_clues == vc1,
                    self.pre_cut_edges@ == s0.pre_cut_edges@ + row_edges(s0.grid, line@, cm@, r as int, c as int).0,
                    self.puzzle.edge_clues@ == s0.puzzle.edge_clues@ + row_edges(
                        s0.grid,
                        line@,
                        cm@,
                        r as int,
                        c as int,
                    ).1,
                decreases cols - c,
            {
                let eid = self.grid.h_edge(r, c);
                let ghost pre_b = self.pre_cut_edges@;
                let ghost ec_b = self.puzzle.edge_clues@;
                let ghost re = row_edges(s0.grid, line@, cm@, r as int, c as int);
                proof {
                    self.grid.lemma_sizes();
                }
                if has_plus[c] && has_plus[c + 1] {
                    let lp = cm[c];
                    let rp = cm[c + 1];
                    let seg = if lp + 1 < rp {
                        let (a, b) = trim_range(&line, lp + 1, rp);
                        slice_copy(&line, a, b)
                    } else {
                        Vec::new()
                    };
                    proof {
                        assert(seg@ =~= edge_text(line@, cm@, c as int));
                    }
                    self.process_edge_segment(&seg, eid);
                    proof {
                        let rec = edge_segment_records(seg@, eid);
                        assert(pre_b + rec.0 =~= s0.pre_cut_edges@ + (re.0 + rec.0));
                        assert(ec_b + rec.1 =~= s0.puzzle.edge_clues@ + (re.1 + rec.1));
                    }
                } else {
                    self.add_pre_cut(eid);
                    proof {
                        assert(pre_b.push(eid) =~= s0.pre_cut_edges@ + (re.0 + seq![eid]));
                        assert(ec_b =~= s0.puzzle.edge_clues@ + (re.1 + seq![]));
                    }
                }
                c = c + 1;
            }
        }
    }

    /// Reads the drawn grid: its size, the cells that are missing, the cell
    /// clues, the edge clues, the watchtower marks and the edges it cuts.
    fn parse_visual_grid(&mut self) -> (r: Result<(), ParseError>)
        requires
            old(self).grid_start <= old(self).grid_end < old(self).lines@.len(),
            lines_small(old(self).lines@),
        ensures
            final(self).lines@ == old(self).lines@,
            final(self).grid_start == old(self).grid_start,
            final(self).grid_end == old(self).grid_end,
            ({
                let lv = lines_view(old(self).lines@);
                let gs = old(self).grid_start as int;
                let ge1 = old(self).grid_end + 1;
                let rows = count_cell_rows(lv, gs, ge1);
                &&& !two_columns(lv, gs, ge1) ==> (r matches Err(e) && e.0@ == "invalid grid width"@)
                &&& two_columns(lv, gs, ge1) && rows == 0 ==> (r matches Err(e) && e.0@
                    == "no cell rows found"@)
                &&& r is Err ==> !two_columns(lv, gs, ge1) || rows == 0 || exists|cm: Seq<usize>|
                    is_column_map(lv, gs, ge1, cm) && 2 * (rows + 1) * cm.len() > usize::MAX
                &&& r is Ok ==> {
                    &&& two_columns(lv, gs, ge1)
                    &&& rows >= 1
                    &&& final(self).grid.wf()
                    &&& final(self).grid.rows == rows
                    &&& exists|cm: Seq<usize>|
                        is_column_map(lv, gs, ge1, cm) && cm.len() == final(self).grid.cols + 1
                }
            }),
            r is Ok && old(self).fresh() ==> final(self).records_ok(),
            old(self).fresh() && r is Err ==> final(self).fresh(),
    {
        let ghost lv = lines_view(self.lines@);
        let ghost fresh = self.fresh();
        let gs = self.grid_start;
        let ge = self.grid_end;
        let cm = self.build_column_map();
        proof {
            assert(lines_fit(lv)) by {
                assert forall|k: int| 0 <= k < lv.len() implies (#[trigger] lv[k]).len() < i32::MAX by {
                    assert(lv[k] == self.lines@[k]@);
                }
            }
            lemma_two_columns(lv, gs as int, ge + 1, cm@);
        }
        if cm.len() < 2 {
            return Err(ParseError("invalid grid width".to_string()));
        }
        let mut rows: usize = 0;
        let mut i = gs;
        while i <= ge
            invariant
                lines_small(self.lines@),
                gs <= i <= ge + 1,
                ge < self.lines@.len(),
                lv == lines_view(self.lines@),
                rows == count_cell_rows(lv, gs as int, i as int),
                rows <= i - gs,
            decreases ge + 1 - i,
        {
            proof {
                assert(lv[i as int] == self.lines@[i as int]@);
            }
            if starts_pipe_exec(&self.lines[i]) {
                rows = rows + 1;
            }
            i = i + 1;
        }
        if rows < 1 {
            return Err(ParseError("no cell rows found".to_string()));
        }
        let cols = cm.len() - 1;
        let fits = match (rows + 1).checked_mul(cm.len()) {
            Some(t) => t.checked_mul(2).is_some(),
            None => false,
        };
        if !fits {
            proof {
                let x = (rows + 1) * cm@.len();
                assert(2 * (rows + 1) * cm@.len() == 2 * x) by (nonlinear_arith)
                    requires
                        x == (rows + 1) * cm@.len(),
                ;
                assert(is_column_map(lv, gs as int, ge + 1, cm@));
            }
            return Err(ParseError("grid too large".to_string()));
        }
        proof {
            assert(2 * (rows + 1) * (cols + 1) == 2 * ((rows + 1) * (cols + 1))) by (nonlinear_arith);
        }
        self.grid = Grid::new(rows, cols, true);
        let mut row: usize = 0;
        let mut i = gs;
        while i <= ge
            invariant
                gs == self.grid_start,
                ge == self.grid_end,
                gs <= i <= ge + 1,
                ge < self.lines@.len(),
                self.lines@ == old(self).lines@,
                lv == lines_view(self.lines@),
                self.grid_frame(rows, cols),
                cm@.len() == cols + 1,
                strictly_increasing(cm@),
                row == count_cell_rows(lv, gs as int, i as int),
                rows == count_cell_rows(lv, gs as int, ge + 1),
                fresh ==> self.records_ok(),
            decreases ge + 1 - i,
        {
            proof {
                assert(lv[i as int] == self.lines@[i as int]@);
                lemma_count_cell_rows_mono(lv, gs as int, i + 1, ge + 1);
            }
            if starts_pipe_exec(&self.lines[i]) {
                self.parse_cell_row(i, row, &cm);
                row = row + 1;
            }
            i = i + 1;
        }
        let mut eri: usize = 0;
        let mut i = gs;
        while i <= ge
            invariant
                gs == self.grid_start,
                ge == self.grid_end,
                gs <= i <= ge + 1,
                ge < self.lines@.len(),
                self.lines@ == old(self).lines@,
                self.grid_frame(rows, cols),
                cm@.len() == cols + 1,
                strictly_increasing(cm@),
                eri <= i - gs,
                fresh ==> self.records_ok(),
            decreases ge + 1 - i,
        {
            if starts_plus_exec(&self.lines[i]) {
                self.parse_edge_row(i, eri, &cm);
                eri = eri + 1;
            }
            i = i + 1;
        }
        Ok(())
    }
}


// ── Supplementary clue lines ─────────────────────────────────────────────────

/// Position of the first space (the length when there is none).
fn first_space(s: &[u8]) -> (k: usize)
    ensures
        k <= s@.len(),
        forall|j: int| 0 <= j < k ==> s@[j] != ascii::SPACE,
        k < s@.len() ==> s@[k as int] == ascii::SPACE,
{
    let mut k: usize = 0;
    while k < s.len() && s[k] != ascii::SPACE
        invariant
            k <= s@.len(),
            forall|j: int| 0 <= j < k ==> s@[j] != ascii::SPACE,
        decreases s@.len() - k,
    {
        k = k + 1;
    }
    k
}

/// The 1-based number written in `s[a..b]`, minus one; text that does not
/// parse counts as 1, and 0 has no index.
pub open spec fn address_spec(s: Seq<u8>, a: int, b: int) -> Option<usize> {
    match crate::text::parse_usize_spec(s.subrange(a, b)) {
        Some(v) => if v == 0 {
            None
        } else {
            Some((v - 1) as usize)
        },
        None => Some(0usize),
    }
}

/// The clue kind written in an `edge` line: `d`, `g`, an inequality mark
/// that suits the edge's direction (`<`/`>` across a vertical edge, `^`/`v`
/// across a horizontal one), or `<N>`.
pub open spec fn supp_edge_kind(t: Seq<u8>, is_h: bool) -> Option<EdgeClueKind> {
    if t == seq![ascii::LO_d] {
        Some(EdgeClueKind::Delta)
    } else if t == seq![ascii::LO_g] {
        Some(EdgeClueKind::Gemini)
    } else if !is_h && t == seq![ascii::LT] {
        Some(EdgeClueKind::Inequality { smaller_first: true })
    } else if !is_h && t == seq![ascii::GT] {
        Some(EdgeClueKind::Inequality { smaller_first: false })
    } else if is_h && t == seq![ascii::CARET] {
        Some(EdgeClueKind::Inequality { smaller_first: true })
    } else if is_h && t == seq![ascii::LO_v] {
        Some(EdgeClueKind::Inequality { smaller_first: false })
    } else {
        match diff_spec(t) {
            Some(v) => Some(EdgeClueKind::Diff { value: v }),
            None => None,
        }
    }
}

/// The edge that the rest of an `edge` line names, with its clue kind: the
/// first word is `h` or another byte (vertical), a row letter from `a` and a
/// 1-based column; the second word is the kind. `None` when the line is too
/// short or the edge is not in the grid.
pub open spec fn supp_edge_target(g: Grid, rest: Seq<u8>) -> Option<(usize, Option<EdgeClueKind>)> {
    let w = crate::text::words_of(rest);
    if w.len() < 2 {
        None
    } else {
        let a0 = w[0].0 as int;
        let b0 = w[0].1 as int;
        let t = rest.subrange(w[1].0 as int, w[1].1 as int);
        let is_h = rest[a0] == ascii::LO_h;
        if b0 - a0 < 2 || rest[a0 + 1] < ascii::LO_a {
            None
        } else {
            let r = rest[a0 + 1] - ascii::LO_a;
            match address_spec(rest, a0 + 2, b0) {
                None => None,
                Some(c) => if is_h {
                    if r + 1 >= g.rows || c >= g.cols {
                        None
                    } else {
                        Some((g.h_edge_at(r, c as int) as usize, supp_edge_kind(t, true)))
                    }
                } else {
                    if r >= g.rows || c + 1 >= g.cols {
                        None
                    } else {
                        Some((g.v_edge_at(r, c as int) as usize, supp_edge_kind(t, false)))
                    }
                },
            }
        }
    }
}

/// The clue that a `vertex` line records, as (vertex, value): the second
/// word is a row letter from `a` and a 1-based column, the third the value;
/// `None` when the line is too short, the point is not in the grid, or the
/// value is 0.
pub open spec fn supp_vertex_clue(g: Grid, line: Seq<u8>) -> Option<(usize, usize)> {
    let w = crate::text::words_of(line);
    if w.len() < 3 {
        None
    } else {
        let a1 = w[1].0 as int;
        let b1 = w[1].1 as int;
        let val = vertex_value_of(line.subrange(w[2].0 as int, w[2].1 as int));
        if line[a1] < ascii::LO_a {
            None
        } else {
            let r = line[a1] - ascii::LO_a;
            match address_spec(line, a1 + 1, b1) {
                None => None,
                Some(c) => if val > 0 && r <= g.rows && c <= g.cols {
                    Some((g.vertex_at(r, c as int) as usize, val))
                } else {
                    None
                },
            }
        }
    }
}

fn address_index(s: &[u8], a: usize, b: usize) -> (r: Option<usize>)
    requires
        a <= b <= s@.len(),
    ensures
        r == address_spec(s@, a as int, b as int),
        r matches Some(c) ==> c < usize::MAX,
{
    let n = match parse_usize_range(s, a, b) {
        Some(v) => v,
        None => 1,
    };
    if n == 0 {
        None
    } else {
        Some(n - 1)
    }
}

impl Parser {
    /// The supplementary lines from line `from` on: `vertex`, `cell` and `edge` clues.
    fn parse_supplementary(&mut self, from: usize)
        requires
            old(self).grid_frame(old(self).grid.rows, old(self).grid.cols),
        ensures
            final(self).same_frame(old(self)),
            final(self).grid_frame(old(self).grid.rows, old(self).grid.cols),
            old(self).records_ok() ==> final(self).records_ok(),
    {
        let ghost rows0 = self.grid.rows;
        let ghost cols0 = self.grid.cols;
        let mut i = from;
        while i < self.lines.len()
            invariant
                self.grid_frame(rows0, cols0),
                self.same_frame(old(self)),
                old(self).records_ok() ==> self.records_ok(),
            decreases self.lines@.len() - i,
        {
            let line = strip_comment(&self.lines[i]);
            if line.len() == 0 {
                i = i + 1;
                continue;
            }
            let sp = first_space(&line);
            let rest = if sp < line.len() {
                slice_copy(&line, sp + 1, line.len())
            } else {
                Vec::new()
            };
            if range_is(&line, 0, sp, "vertex".as_bytes()) {
                self.supplementary_vertex(i);
            } else if range_is(&line, 0, sp, "cell".as_bytes()) {
                i = self.supplementary_cell(i, &rest);
            } else if range_is(&line, 0, sp, "edge".as_bytes()) {
                self.supplementary_edge(&rest);
            }
            i = i + 1;
        }
    }

    /// `vertex <row letter><column> <value>`, read from the raw line so that `#` counts.
    fn supplementary_vertex(&mut self, i: usize)
        requires
            old(self).grid_frame(old(self).grid.rows, old(self).grid.cols),
            i < old(self).lines@.len(),
        ensures
            final(self).same_frame(old(self)),
            final(self).grid_frame(old(self).grid.rows, old(self).grid.cols),
            old(self).records_ok() ==> final(self).records_ok(),
            final(self).same_but_records(old(self)),
            final(self).puzzle.cell_clues == old(self).puzzle.cell_clues,
            final(self).puzzle.edge_clues == old(self).puzzle.edge_clues,
            final(self).pre_cut_edges == old(self).pre_cut_edges,
            final(self).puzzle.vertex_clues@ == match supp_vertex_clue(old(self).grid, old(self).lines@[i as int]@) {
                Some((v, val)) => old(self).puzzle.vertex_clues@.push(VertexClue { vertex: v, value: val }),
                None => old(self).puzzle.vertex_clues@,
            },
    {
        let raw = slice_copy(&self.lines[i], 0, self.lines[i].len());
        proof {
            assert(raw@ =~= self.lines@[i as int]@);
        }
        let words = split_words(&raw);
        if words.len() < 3 {
            return;
        }
        let (a1, b1) = words[1];
        let (a2, b2) = words[2];
        let vtext = slice_copy(&raw, a2, b2);
        let val = parse_vertex_value(&vtext);
        let first = raw[a1];
        if first < ascii::LO_a {
            return;
        }
        let r = (first - ascii::LO_a) as usize;
        let c = match address_index(&raw, a1 + 1, b1) {
            Some(c) => c,
            None => {
                return;
            },
        };
        if val > 0 && r <= self.grid.rows && c <= self.grid.cols {
            let v = self.grid.vertex(r, c);
            self.add_vertex_clue(v, val);
        }
    }

    /// `cell <row letter><column> <kind> ...`; returns the last line it used.
    fn supplementary_cell(&mut self, i: usize, rest: &[u8]) -> (last: usize)
        requires
            old(self).grid_frame(old(self).grid.rows, old(self).grid.cols),
            i < old(self).lines@.len(),
        ensures
            i <= last < final(self).lines@.len(),
            final(self).same_frame(old(self)),
            final(self).grid_frame(old(self).grid.rows, old(self).grid.cols),
            old(self).records_ok() ==> final(self).records_ok(),
    {
        let words = split_words(rest);
        if words.len() < 2 {
            return i;
        }
        let (a0, b0) = words[0];
        let (a1, b1) = words[1];
        let first = rest[a0];
        if first < ascii::LO_a {
            return i;
        }
        let r = (first - ascii::LO_a) as usize;
        let c = match address_index(rest, a0 + 1, b0) {
            Some(c) => c,
            None => {
                return i;
            },
        };
        if r >= self.grid.rows || c >= self.grid.cols {
            return i;
        }
        proof {
            lemma_index_in_box(r as int, c as int, self.grid.rows as int, self.grid.cols as int);
            self.grid.lemma_sizes();
        }
        let cid = self.grid.cell_id(r, c);
        if range_is(rest, a1, b1, "compass".as_bytes()) {
            let mut compass = CompassData { e: None, w: None, s: None, n: None };
            let mut k: usize = 2;
            while k < words.len()
                invariant
                    forall|t: int|
                        0 <= t < words@.len() ==> crate::text::is_word(
                            rest@,
                            #[trigger] words@[t].0 as int,
                            words@[t].1 as int,
                        ),
                decreases words@.len() - k,
            {
                let (da, db) = words[k];
                let ch = rest[da];
                let v = match parse_usize_range(rest, da + 1, db) {
                    Some(v) => v,
                    None => 0,
                };
                if ch == ascii::LO_e {
                    compass.e = Some(v);
                } else if ch == ascii::LO_w {
                    compass.w = Some(v);
                } else if ch == ascii::LO_s {
                    compass.s = Some(v);
                } else if ch == ascii::LO_n {
                    compass.n = Some(v);
                }
                k = k + 1;
            }
            self.add_cell_clue(CellClue::Compass { cell: cid, compass });
        } else if range_is(rest, a1, b1, "poly".as_bytes()) {
            if words.len() >= 3 {
                let (a2, b2) = words[2];
                let name = slice_copy(rest, a2, b2);
                if let Some(shape) = polyomino::named_shape(&name) {
                    self.add_cell_clue(CellClue::Polyomino { cell: cid, shape });
                }
            } else {
                let mut j = i + 1;
                let mut shape_lines: Vec<Vec<u8>> = Vec::new();
                while j < self.lines.len() && self.lines[j].len() != 0 && only_hash_dot(&self.lines[j])
                    invariant
                        i < j <= self.lines@.len(),
                        lines_small(self.lines@),
                        shape_lines@.len() <= j,
                        forall|k: int|
                            0 <= k < shape_lines@.len() ==> (#[trigger] shape_lines@[k])@.len()
                                < i32::MAX,
                    decreases self.lines@.len() - j,
                {
                    let sl = slice_copy(&self.lines[j], 0, self.lines[j].len());
                    shape_lines.push(sl);
                    j = j + 1;
                }
                let shape = polyomino::parse_shape_bytes(&shape_lines);
                self.add_cell_clue(CellClue::Polyomino { cell: cid, shape });
                return j - 1;
            }
        } else if range_is(rest, a1, b1, "area".as_bytes()) {
            let value = if words.len() >= 3 {
                let (a2, b2) = words[2];
                match parse_usize_range(rest, a2, b2) {
                    Some(v) => v,
                    None => 0,
                }
            } else {
                0
            };
            self.add_cell_clue(CellClue::Area { cell: cid, value });
        } else if range_is(rest, a1, b1, "rose".as_bytes()) {
            let sym = if words.len() >= 3 {
                rest[words[2].0]
            } else {
                ascii::UP_A
            };
            if sym >= ascii::UP_A {
                self.add_cell_clue(CellClue::Rose { cell: cid, symbol: sym - ascii::UP_A });
            }
        } else if range_is(rest, a1, b1, "palisade".as_bytes()) {
            let kind = if words.len() >= 3 {
                let (a2, b2) = words[2];
                let pval = slice_copy(rest, a2, b2);
                parse_palistr(&pval)
            } else {
                None
            };
            if let Some(kind) = kind {
                self.add_cell_clue(CellClue::Palisade { cell: cid, kind });
            }
        }
        i
    }

    /// `edge <h|v><row letter><column> <kind>`: the edge is cut and may carry a clue.
    fn supplementary_edge(&mut self, rest: &[u8])
        requires
            old(self).grid_frame(old(self).grid.rows, old(self).grid.cols),
        ensures
            final(self).same_frame(old(self)),
            final(self).grid_frame(old(self).grid.rows, old(self).grid.cols),
            old(self).records_ok() ==> final(self).records_ok(),
            final(self).same_but_records(old(self)),
            final(self).puzzle.cell_clues == old(self).puzzle.cell_clues,
            final(self).puzzle.vertex_clues == old(self).puzzle.vertex_clues,
            match supp_edge_target(old(self).grid, rest@) {
                None => {
                    &&& final(self).pre_cut_edges == old(self).pre_cut_edges
                    &&& final(self).puzzle.edge_clues == old(self).puzzle.edge_clues
                },
                Some((e, k)) => {
                    &&& final(self).pre_cut_edges@ == old(self).pre_cut_edges@.push(e)
                    &&& final(self).puzzle.edge_clues@ == match k {
                        Some(kind) => old(self).puzzle.edge_clues@.push(EdgeClue { edge: e, kind }),
                        None => old(self).puzzle.edge_clues@,
                    }
                },
            },
    {
        let words = split_words(rest);
        if words.len() < 2 {
            return;
        }
        let (a0, b0) = words[0];
        let (a1, b1) = words[1];
        if b0 - a0 < 2 {
            return;
        }
        let is_h = rest[a0] == ascii::LO_h;
        let second = rest[a0 + 1];
        if second < ascii::LO_a {
            return;
        }
        let r = (second - ascii::LO_a) as usize;
        let c = match address_index(rest, a0 + 2, b0) {
            Some(c) => c,
            None => {
                return;
            },
        };
        let eid = if is_h {
            if r + 1 >= self.grid.rows || c >= self.grid.cols {
                return;
            }
            self.grid.h_edge(r, c)
        } else {
            if r >= self.grid.rows || c + 1 >= self.grid.cols {
                return;
            }
            self.grid.v_edge(r, c)
        };
        proof {
            self.grid.lemma_sizes();
        }
        self.add_pre_cut(eid);
        let ctype = slice_copy(rest, a1, b1);
        let kind = if is_byte(&ctype, ascii::LO_d) {
            Some(EdgeClueKind::Delta)
        } else if is_byte(&ctype, ascii::LO_g) {
            Some(EdgeClueKind::Gemini)
        } else if !is_h && is_byte(&ctype, ascii::LT) {
            Some(EdgeClueKind::Inequality { smaller_first: true })
        } else if !is_h && is_byte(&ctype, ascii::GT) {
            Some(EdgeClueKind::Inequality { smaller_first: false })
        } else if is_h && is_byte(&ctype, ascii::CARET) {
            Some(EdgeClueKind::Inequality { smaller_first: true })
        } else if is_h && is_byte(&ctype, ascii::LO_v) {
            Some(EdgeClueKind::Inequality { smaller_first: false })
        } else {
            match diff_value(&ctype) {
                Some(value) => Some(EdgeClueKind::Diff { value }),
                None => None,
            }
        };
        proof {
            assert(kind == supp_edge_kind(rest@.subrange(a1 as int, b1 as int), is_h));
        }
        if let Some(kind) = kind {
            self.add_edge_clue(eid, kind);
        }
    }
}

} // verus!
