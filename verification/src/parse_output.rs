//! The puzzle as read, written back as JSON: its rules, the clue of every
//! cell, the marked edges, the watchtower clues and, when the input holds
//! one, its drawn solution.
use vstd::prelude::*;
use crate::ascii;
use crate::grid::Grid;
use crate::parser::Parser;
use crate::text::{is_digit, is_digit_byte, lemma_lead_ws, parse_usize_range, parse_usize_spec, skip_ws, slice_copy, trim_start};
use crate::polyomino::{self, canonical_spec, named_cells, shape_fits, shape_of, shape_ok, ShapeView};
use crate::types::{CellClue, CompassData, EdgeClue, EdgeClueKind, EdgeId, GlobalRules, PalisadeKind, Shape, VertexClue};

verus! {

// ── Text pieces ──────────────────────────────────────────────────────────────

/// The character with code `b`.
pub open spec fn ch(b: int) -> char {
    (b as u8) as char
}

/// The decimal digits of `n`.
pub open spec fn dec(n: nat) -> Seq<char>
    decreases n,
{
    if n < 10 {
        seq![ch(48 + n as int)]
    } else {
        dec(n / 10).push(ch(48 + (n % 10) as int))
    }
}

/// The name of cell `c`: its row as a letter from `a` on, then its column
/// counted from 1.
pub open spec fn pos_text(g: Grid, c: int) -> Seq<char> {
    seq![ch(97 + c / (g.cols as int))] + dec((c % (g.cols as int) + 1) as nat)
}

/// A character as it stands inside a JSON string.
pub open spec fn escape_char(c: char) -> Seq<char> {
    if c == '\\' {
        seq!['\\', '\\']
    } else if c == '"' {
        seq!['\\', '"']
    } else if c == '\n' {
        seq!['\\', 'n']
    } else {
        seq![c]
    }
}

/// Text as it stands inside a JSON string.
pub open spec fn escape(s: Seq<char>) -> Seq<char>
    decreases s.len(),
{
    if s.len() == 0 {
        Seq::empty()
    } else {
        escape(s.drop_last()) + escape_char(s.last())
    }
}

/// The items, with `sep` between two of them.
pub open spec fn join(items: Seq<Seq<char>>, sep: Seq<char>) -> Seq<char>
    decreases items.len(),
{
    if items.len() == 0 {
        Seq::empty()
    } else if items.len() == 1 {
        items[0]
    } else {
        join(items.drop_last(), sep) + sep + items.last()
    }
}

/// Four spaces.
pub open spec fn indent() -> Seq<char> {
    seq![' ', ' ', ' ', ' ']
}

/// `"text"`, escaped.
pub open spec fn quoted(s: Seq<char>) -> Seq<char> {
    seq!['"'] + escape(s) + seq!['"']
}

/// A JSON array of strings, one per line.
pub open spec fn array_text(items: Seq<Seq<char>>) -> Seq<char> {
    if items.len() == 0 {
        seq!['[', ']']
    } else {
        seq!['[', '\n'] + join(items.map_values(|it: Seq<char>| indent() + quoted(it)), seq![',', '\n']) + seq![']']
    }
}

/// The first `k` entries of an object: entries of one row on one line,
/// separated by a comma and a space; lines separated by a comma.
pub open spec fn grouped(entries: Seq<(usize, Seq<char>)>, k: int) -> Seq<char>
    decreases k,
{
    if k <= 0 {
        Seq::empty()
    } else {
        let sep = if k == 1 {
            indent()
        } else if entries[k - 1].0 != entries[k - 2].0 {
            seq![',', '\n'] + indent()
        } else {
            seq![',', ' ']
        };
        grouped(entries, k - 1) + sep + entries[k - 1].1
    }
}

/// A JSON object made of the entries, grouped by row.
pub open spec fn object_text(entries: Seq<(usize, Seq<char>)>) -> Seq<char> {
    if entries.len() == 0 {
        seq!['{', '}']
    } else {
        seq!['{', '\n'] + grouped(entries, entries.len() as int) + seq!['}']
    }
}

// ── Building text ────────────────────────────────────────────────────────────

/// Calls `String::from_iter` (std) on the characters: the string made of
/// them, in order.
#[verifier::external_body]
fn chars_string(chars: Vec<char>) -> (s: String)
    ensures
        s@ == chars@,
{
    String::from_iter(chars)
}

/// Appends the characters of `s`.
fn push_all(out: &mut Vec<char>, s: &[char])
    ensures
        final(out)@ == old(out)@ + s@,
{
    let ghost start = out@;
    let mut i: usize = 0;
    while i < s.len()
        invariant
            i <= s@.len(),
            out@ == start + s@.take(i as int),
        decreases s@.len() - i,
    {
        out.push(s[i]);
        i = i + 1;
        proof {
            assert(out@ =~= start + s@.take(i as int));
        }
    }
    proof {
        assert(s@.take(s@.len() as int) =~= s@);
    }
}

/// Appends the decimal digits of `n`.
fn push_dec(out: &mut Vec<char>, n: usize)
    ensures
        final(out)@ == old(out)@ + dec(n as nat),
    decreases n,
{
    if n >= 10 {
        push_dec(out, n / 10);
    }
    out.push(((48 + n % 10) as u8) as char);
    proof {
        if n < 10 {
            assert(n % 10 == n);
        }
    }
}

/// Appends the name of cell `c` (see `pos_text`).
fn push_pos(out: &mut Vec<char>, g: &Grid, c: usize)
    requires
        g.wf(),
        c < g.n_cells(),
        g.rows < 160,
    ensures
        final(out)@ == old(out)@ + pos_text(*g, c as int),
{
    proof {
        if g.cols == 0 {
            assert(g.rows * g.cols == 0) by (nonlinear_arith)
                requires
                    g.cols == 0,
            ;
        }
        crate::grid::lemma_div_mod_in_box(c as int, g.rows as int, g.cols as int);
    }
    let (r, col) = g.cell_pos(c);
    out.push(((97 + r) as u8) as char);
    push_dec(out, col + 1);
    proof {
        assert(old(out)@ + pos_text(*g, c as int) =~= old(out)@.push(ch(97 + r as int)) + dec((col + 1) as nat));
    }
}

/// Appends text as it stands inside a JSON string.
fn push_escaped(out: &mut Vec<char>, s: &Vec<char>)
    ensures
        final(out)@ == old(out)@ + escape(s@),
{
    let ghost start = out@;
    let mut i: usize = 0;
    while i < s.len()
        invariant
            i <= s@.len(),
            out@ == start + escape(s@.take(i as int)),
        decreases s@.len() - i,
    {
        let c = s[i];
        proof {
            assert(s@.take(i + 1).drop_last() =~= s@.take(i as int));
            assert(s@.take(i + 1).last() == c);
        }
        if c == '\\' {
            out.push('\\');
            out.push('\\');
        } else if c == '"' {
            out.push('\\');
            out.push('"');
        } else if c == '\n' {
            out.push('\\');
            out.push('n');
        } else {
            out.push(c);
        }
        i = i + 1;
        proof {
            assert(out@ =~= start + escape(s@.take(i as int)));
        }
    }
    proof {
        assert(s@.take(s@.len() as int) =~= s@);
    }
}

/// Appends a JSON array of strings (see `array_text`).
fn push_array(out: &mut Vec<char>, items: &Vec<Vec<char>>)
    ensures
        final(out)@ == old(out)@ + array_text(items@.map_values(|v: Vec<char>| v@)),
{
    let ghost its = items@.map_values(|v: Vec<char>| v@);
    let ghost lines = its.map_values(|it: Seq<char>| indent() + quoted(it));
    if items.len() == 0 {
        out.push('[');
        out.push(']');
        proof {
            assert(old(out)@ + array_text(its) =~= out@);
        }
        return;
    }
    let ghost start = out@;
    out.push('[');
    out.push('\n');
    let ghost base = out@;
    let mut i: usize = 0;
    while i < items.len()
        invariant
            0 < items@.len(),
            i <= items@.len(),
            its == items@.map_values(|v: Vec<char>| v@),
            lines == its.map_values(|it: Seq<char>| indent() + quoted(it)),
            out@ == base + join(lines.take(i as int), seq![',', '\n']),
        decreases items@.len() - i,
    {
        if i > 0 {
            out.push(',');
            out.push('\n');
        }
        push_all(out, &[' ', ' ', ' ', ' ']);
        out.push('"');
        push_escaped(out, &items[i]);
        out.push('"');
        proof {
            let t = lines.take(i + 1);
            assert(t.drop_last() =~= lines.take(i as int));
            assert(t.last() == indent() + quoted(items@[i as int]@));
            assert(out@ =~= base + join(lines.take(i + 1), seq![',', '\n']));
        }
        i = i + 1;
    }
    out.push(']');
    proof {
        assert(lines.take(items@.len() as int) =~= lines);
        assert(out@ =~= start + array_text(its));
    }
}

/// Appends a JSON object made of the entries (see `object_text`).
fn push_object(out: &mut Vec<char>, entries: &Vec<(usize, Vec<char>)>)
    ensures
        final(out)@ == old(out)@ + object_text(entries@.map_values(|e: (usize, Vec<char>)| (e.0, e.1@))),
{
    let ghost es = entries@.map_values(|e: (usize, Vec<char>)| (e.0, e.1@));
    if entries.len() == 0 {
        out.push('{');
        out.push('}');
        proof {
            assert(old(out)@ + object_text(es) =~= out@);
        }
        return;
    }
    let ghost start = out@;
    out.push('{');
    out.push('\n');
    let ghost base = out@;
    let mut i: usize = 0;
    while i < entries.len()
        invariant
            0 < entries@.len(),
            i <= entries@.len(),
            es == entries@.map_values(|e: (usize, Vec<char>)| (e.0, e.1@)),
            out@ == base + grouped(es, i as int),
        decreases entries@.len() - i,
    {
        if i == 0 {
            push_all(out, &[' ', ' ', ' ', ' ']);
        } else if entries[i].0 != entries[i - 1].0 {
            out.push(',');
            out.push('\n');
            push_all(out, &[' ', ' ', ' ', ' ']);
        } else {
            out.push(',');
            out.push(' ');
        }
        push_all(out, entries[i].1.as_slice());
        proof {
            assert(out@ =~= base + grouped(es, i + 1));
        }
        i = i + 1;
    }
    out.push('}');
    proof {
        assert(out@ =~= start + object_text(es));
    }
}

// ── Shapes and clues as text ─────────────────────────────────────────────────

/// The names of shapes, in the order in which a shape is matched to them.
pub open spec fn shape_names() -> Seq<Seq<u8>> {
    seq![
        seq![ascii::LO_o],
        seq![ascii::LO_o, ascii::LO_o],
        seq![ascii::LO_o, ascii::LO_o, ascii::LO_o],
        seq![ascii::EIGHT, ascii::LO_o],
        seq![ascii::UP_I],
        seq![ascii::UP_O],
        seq![ascii::UP_T],
        seq![ascii::UP_S],
        seq![ascii::UP_Z],
        seq![ascii::UP_L],
        seq![ascii::UP_J],
        seq![ascii::UP_F],
        seq![ascii::UP_P],
        seq![ascii::UP_N],
        seq![ascii::UP_U],
        seq![ascii::UP_V],
        seq![ascii::UP_W],
        seq![ascii::UP_X],
        seq![ascii::UP_Y],
        seq![ascii::UP_I, ascii::UP_I],
        seq![ascii::UP_L, ascii::UP_L],
        seq![ascii::UP_T, ascii::UP_T],
        seq![ascii::UP_Z, ascii::UP_Z],
    ]
}

/// Shape `v` has the shape named `name`, up to rotation and mirroring.
pub open spec fn has_name(v: ShapeView, name: Seq<u8>) -> bool {
    named_cells(name) matches Some(c) && canonical_spec(v) == canonical_spec(shape_of(c))
}

/// The first name, from the `k`-th on, that shape `v` has.
pub open spec fn name_from(v: ShapeView, k: int) -> Option<Seq<u8>>
    decreases 23 - k,
{
    if k < 0 || k >= 23 {
        None
    } else if has_name(v, shape_names()[k]) {
        Some(shape_names()[k])
    } else {
        name_from(v, k + 1)
    }
}

/// The characters of ASCII bytes.
pub open spec fn text_of(b: Seq<u8>) -> Seq<char> {
    b.map_values(|x: u8| x as char)
}

/// Row `r` of a shape drawn as text: `#` on its cells, `.` elsewhere.
pub open spec fn grid_row(v: ShapeView, r: int) -> Seq<char> {
    Seq::new(v.1 as nat, |c: int| if v.2.contains((r as i32, c as i32)) { '#' } else { '.' })
}

/// A shape drawn as text, one line per row.
pub open spec fn shape_grid(v: ShapeView) -> Seq<char> {
    join(Seq::new(v.0 as nat, |r: int| grid_row(v, r)), seq!['\n'])
}

/// A shape as text: its name when it has one, else its drawing.
pub open spec fn shape_text(v: ShapeView) -> Seq<char> {
    match name_from(v, 0) {
        Some(name) => text_of(name),
        None => shape_grid(v),
    }
}

/// A direction letter and count, when the count is given.
pub open spec fn compass_part(letter: char, v: Option<usize>) -> Seq<char> {
    match v {
        Some(n) => seq![letter] + dec(n as nat),
        None => Seq::empty(),
    }
}

/// A compass clue as text: its counts north, east, west and south, or `c`.
pub open spec fn compass_text(cd: CompassData) -> Seq<char> {
    let parts = compass_part('N', cd.n) + compass_part('E', cd.e) + compass_part('W', cd.w) + compass_part('S', cd.s);
    if parts.len() == 0 {
        seq!['c']
    } else {
        parts
    }
}

/// A palisade clue as text.
pub open spec fn palisade_text(kind: PalisadeKind) -> Seq<char> {
    match kind {
        PalisadeKind::Zero => seq!['p', '0'],
        PalisadeKind::One => seq!['p', '1'],
        PalisadeKind::Opposite => seq!['p', '='],
        PalisadeKind::Adjacent => seq!['p', '2'],
        PalisadeKind::Three => seq!['p', '3'],
        PalisadeKind::All => seq!['p', '4'],
    }
}

/// A cell clue as text.
pub open spec fn clue_text(clue: CellClue) -> Seq<char> {
    match clue {
        CellClue::Area { value, .. } => dec(value as nat),
        CellClue::Rose { symbol, .. } => seq![ch(65 + symbol as int)],
        CellClue::Polyomino { shape, .. } => shape_text(shape@),
        CellClue::Palisade { kind, .. } => palisade_text(kind),
        CellClue::Compass { compass, .. } => compass_text(compass),
    }
}

/// An edge clue as text; `horizontal` for an edge between two rows.
pub open spec fn edge_clue_text(kind: EdgeClueKind, horizontal: bool) -> Seq<char> {
    match kind {
        EdgeClueKind::Delta => seq!['d'],
        EdgeClueKind::Gemini => seq!['g'],
        EdgeClueKind::Inequality { smaller_first } => if horizontal {
            if smaller_first {
                seq!['^']
            } else {
                seq!['v']
            }
        } else if smaller_first {
            seq!['<']
        } else {
            seq!['>']
        },
        EdgeClueKind::Diff { value } => seq!['<'] + dec(value as nat) + seq!['>'],
    }
}

/// A watchtower clue as text.
pub open spec fn vertex_clue_text(value: usize) -> Seq<char> {
    if value == 1 {
        seq!['!']
    } else if value == 2 {
        seq!['@']
    } else if value == 3 {
        seq!['#']
    } else if value == 4 {
        seq!['$']
    } else {
        seq!['?']
    }
}

/// The bytes of the `k`-th shape name.
fn name_bytes(k: usize) -> (v: Vec<u8>)
    requires
        k < 23,
    ensures
        v@ == shape_names()[k as int],
{
    let v: Vec<u8> = if k == 0 {
        vec![ascii::LO_o]
    } else if k == 1 {
        vec![ascii::LO_o, ascii::LO_o]
    } else if k == 2 {
        vec![ascii::LO_o, ascii::LO_o, ascii::LO_o]
    } else if k == 3 {
        vec![ascii::EIGHT, ascii::LO_o]
    } else if k == 4 {
        vec![ascii::UP_I]
    } else if k == 5 {
        vec![ascii::UP_O]
    } else if k == 6 {
        vec![ascii::UP_T]
    } else if k == 7 {
        vec![ascii::UP_S]
    } else if k == 8 {
        vec![ascii::UP_Z]
    } else if k == 9 {
        vec![ascii::UP_L]
    } else if k == 10 {
        vec![ascii::UP_J]
    } else if k == 11 {
        vec![ascii::UP_F]
    } else if k == 12 {
        vec![ascii::UP_P]
    } else if k == 13 {
        vec![ascii::UP_N]
    } else if k == 14 {
        vec![ascii::UP_U]
    } else if k == 15 {
        vec![ascii::UP_V]
    } else if k == 16 {
        vec![ascii::UP_W]
    } else if k == 17 {
        vec![ascii::UP_X]
    } else if k == 18 {
        vec![ascii::UP_Y]
    } else if k == 19 {
        vec![ascii::UP_I, ascii::UP_I]
    } else if k == 20 {
        vec![ascii::UP_L, ascii::UP_L]
    } else if k == 21 {
        vec![ascii::UP_T, ascii::UP_T]
    } else {
        vec![ascii::UP_Z, ascii::UP_Z]
    };
    proof {
        assert(v@ =~= shape_names()[k as int]);
    }
    v
}

/// The name of a shape, when it has one (see `name_from`).
fn shape_name(shape: &Shape) -> (r: Option<Vec<u8>>)
    requires
        shape_ok(*shape),
    ensures
        r matches Some(v) ==> name_from(shape@, 0) == Some(v@),
        r is None ==> name_from(shape@, 0) is None,
{
    let canon = polyomino::canonical(shape);
    let mut k: usize = 0;
    while k < 23
        invariant
            k <= 23,
            canon@ == canonical_spec(shape@),
            name_from(shape@, 0) == name_from(shape@, k as int),
        decreases 23 - k,
    {
        let name = name_bytes(k);
        if let Some(named) = polyomino::named_shape(&name) {
            let c2 = polyomino::canonical(&named);
            if polyomino::shape_equal(&canon, &c2) {
                return Some(name);
            }
        }
        k = k + 1;
    }
    None
}

/// Appends the characters of ASCII bytes.
fn push_bytes(out: &mut Vec<char>, b: &Vec<u8>)
    ensures
        final(out)@ == old(out)@ + text_of(b@),
{
    let ghost start = out@;
    let mut i: usize = 0;
    while i < b.len()
        invariant
            i <= b@.len(),
            out@ == start + text_of(b@.take(i as int)),
        decreases b@.len() - i,
    {
        out.push(b[i] as char);
        i = i + 1;
        proof {
            assert(out@ =~= start + text_of(b@.take(i as int)));
        }
    }
    proof {
        assert(b@.take(b@.len() as int) =~= b@);
    }
}

/// Whether the shape has a cell at (r, c).
fn has_cell(shape: &Shape, r: i32, c: i32) -> (b: bool)
    ensures
        b == shape.cells@.contains((r, c)),
{
    let mut i: usize = 0;
    while i < shape.cells.len()
        invariant
            i <= shape.cells@.len(),
            forall|j: int| 0 <= j < i ==> shape.cells@[j] != (r, c),
        decreases shape.cells@.len() - i,
    {
        let (a, b) = shape.cells[i];
        if a == r && b == c {
            proof {
                assert(shape.cells@[i as int] == (r, c));
            }
            return true;
        }
        i = i + 1;
    }
    false
}

/// Appends the drawing of a shape (see `shape_grid`).
fn push_shape_grid(out: &mut Vec<char>, shape: &Shape)
    requires
        shape_fits(*shape),
    ensures
        final(out)@ == old(out)@ + shape_grid(shape@),
{
    let ghost v = shape@;
    let ghost rows = Seq::new(v.0 as nat, |r: int| grid_row(v, r));
    let ghost start = out@;
    let mut r: i32 = 0;
    while r < shape.height
        invariant
            v == shape@,
            0 <= shape.height,
            0 <= shape.width,
            0 <= r <= shape.height,
            rows == Seq::new(v.0 as nat, |r: int| grid_row(v, r)),
            out@ == start + join(rows.take(r as int), seq!['\n']),
        decreases shape.height - r,
    {
        let ghost before = out@;
        if r > 0 {
            out.push('\n');
        }
        let ghost mid = out@;
        let mut c: i32 = 0;
        while c < shape.width
            invariant
                v == shape@,
                0 <= r < shape.height,
                0 <= c <= shape.width,
                out@ == mid + grid_row(v, r as int).take(c as int),
            decreases shape.width - c,
        {
            if has_cell(shape, r, c) {
                out.push('#');
            } else {
                out.push('.');
            }
            c = c + 1;
            proof {
                assert(out@ =~= mid + grid_row(v, r as int).take(c as int));
            }
        }
        proof {
            assert(grid_row(v, r as int).take(shape.width as int) =~= grid_row(v, r as int));
            let t = rows.take(r + 1);
            assert(t.drop_last() =~= rows.take(r as int));
            assert(t.last() == grid_row(v, r as int));
            assert(out@ =~= start + join(rows.take(r + 1), seq!['\n']));
        }
        r = r + 1;
    }
    proof {
        assert(rows.take(shape.height as int) =~= rows);
    }
}

/// Appends a shape as text (see `shape_text`).
fn push_shape_text(out: &mut Vec<char>, shape: &Shape)
    requires
        shape_ok(*shape),
        shape_fits(*shape),
    ensures
        final(out)@ == old(out)@ + shape_text(shape@),
{
    match shape_name(shape) {
        Some(name) => push_bytes(out, &name),
        None => push_shape_grid(out, shape),
    }
}

/// Appends a direction letter and count, when the count is given.
fn push_compass_part(out: &mut Vec<char>, letter: char, v: Option<usize>)
    ensures
        final(out)@ == old(out)@ + compass_part(letter, v),
{
    if let Some(n) = v {
        out.push(letter);
        push_dec(out, n);
        proof {
            assert(old(out)@ + compass_part(letter, v) =~= old(out)@.push(letter) + dec(n as nat));
        }
    } else {
        proof {
            assert(old(out)@ + compass_part(letter, v) =~= old(out)@);
        }
    }
}

/// Appends a cell clue as text (see `clue_text`).
fn push_clue_text(out: &mut Vec<char>, clue: &CellClue)
    requires
        *clue matches CellClue::Polyomino { shape, .. } ==> shape_ok(shape) && shape_fits(shape),
        *clue matches CellClue::Rose { symbol, .. } ==> symbol <= 190,
    ensures
        final(out)@ == old(out)@ + clue_text(*clue),
{
    match clue {
        CellClue::Area { value, .. } => push_dec(out, *value),
        CellClue::Rose { symbol, .. } => out.push((65 + *symbol) as char),
        CellClue::Polyomino { shape, .. } => push_shape_text(out, shape),
        CellClue::Palisade { kind, .. } => {
            out.push('p');
            let c = match kind {
                PalisadeKind::Zero => '0',
                PalisadeKind::One => '1',
                PalisadeKind::Opposite => '=',
                PalisadeKind::Adjacent => '2',
                PalisadeKind::Three => '3',
                PalisadeKind::All => '4',
            };
            out.push(c);
            proof {
                assert(out@ =~= old(out)@ + clue_text(*clue));
            }
        },
        CellClue::Compass { compass, .. } => {
            let ghost start = out@;
            let len0 = out.len();
            push_compass_part(out, 'N', compass.n);
            push_compass_part(out, 'E', compass.e);
            push_compass_part(out, 'W', compass.w);
            push_compass_part(out, 'S', compass.s);
            if out.len() == len0 {
                out.push('c');
            }
            proof {
                let parts = compass_part('N', compass.n) + compass_part('E', compass.e) + compass_part('W', compass.w)
                    + compass_part('S', compass.s);
                assert(out@ =~= start + clue_text(*clue)) by {
                    if parts.len() == 0 {
                        assert(start + parts =~= start);
                    } else {
                        assert(start + compass_part('N', compass.n) + compass_part('E', compass.e) + compass_part(
                            'W',
                            compass.w,
                        ) + compass_part('S', compass.s) =~= start + parts);
                    }
                }
            }
        },
    }
}

/// Appends an edge clue as text (see `edge_clue_text`).
fn push_edge_clue_text(out: &mut Vec<char>, kind: EdgeClueKind, horizontal: bool)
    ensures
        final(out)@ == old(out)@ + edge_clue_text(kind, horizontal),
{
    match kind {
        EdgeClueKind::Delta => out.push('d'),
        EdgeClueKind::Gemini => out.push('g'),
        EdgeClueKind::Inequality { smaller_first } => {
            let c = if horizontal {
                if smaller_first {
                    '^'
                } else {
                    'v'
                }
            } else if smaller_first {
                '<'
            } else {
                '>'
            };
            out.push(c);
        },
        EdgeClueKind::Diff { value } => {
            out.push('<');
            push_dec(out, value);
            out.push('>');
            proof {
                assert(out@ =~= old(out)@ + edge_clue_text(kind, horizontal));
            }
        },
    }
}

/// Appends a watchtower clue as text.
fn push_vertex_clue_text(out: &mut Vec<char>, value: usize)
    ensures
        final(out)@ == old(out)@ + vertex_clue_text(value),
{
    let c = if value == 1 {
        '!'
    } else if value == 2 {
        '@'
    } else if value == 3 {
        '#'
    } else if value == 4 {
        '$'
    } else {
        '?'
    };
    out.push(c);
}

// ── Rules ────────────────────────────────────────────────────────────────────

/// The rule as a one-item list when it is on.
pub open spec fn flag(on: bool, text: Seq<char>) -> Seq<Seq<char>> {
    if on {
        seq![text]
    } else {
        Seq::empty()
    }
}

pub open spec fn precision_word() -> Seq<char> {
    seq!['p', 'r', 'e', 'c', 'i', 's', 'i', 'o', 'n', ' ']
}

pub open spec fn minimum_word() -> Seq<char> {
    seq!['m', 'i', 'n', 'i', 'm', 'u', 'm', ' ']
}

pub open spec fn maximum_word() -> Seq<char> {
    seq!['m', 'a', 'x', 'i', 'm', 'u', 'm', ' ']
}

/// The area rules: one `precision` rule when both bounds are equal.
pub open spec fn bound_rules(min: Option<usize>, max: Option<usize>) -> Seq<Seq<char>> {
    match (min, max) {
        (Some(v), Some(u)) => if v == u {
            seq![precision_word() + dec(v as nat)]
        } else {
            seq![minimum_word() + dec(v as nat), maximum_word() + dec(u as nat)]
        },
        (Some(v), None) => seq![minimum_word() + dec(v as nat)],
        (None, Some(u)) => seq![maximum_word() + dec(u as nat)],
        (None, None) => Seq::empty(),
    }
}

/// The names of the bank's shapes that have one, in order.
pub open spec fn bank_names(bank: Seq<Shape>) -> Seq<Seq<char>>
    decreases bank.len(),
{
    if bank.len() == 0 {
        Seq::empty()
    } else {
        bank_names(bank.drop_last()) + match name_from(bank.last()@, 0) {
            Some(name) => seq![text_of(name)],
            None => Seq::empty(),
        }
    }
}

/// The drawings of the bank's shapes that have no name, in order.
pub open spec fn bank_grids(bank: Seq<Shape>) -> Seq<Seq<char>>
    decreases bank.len(),
{
    if bank.len() == 0 {
        Seq::empty()
    } else {
        bank_grids(bank.drop_last()) + match name_from(bank.last()@, 0) {
            Some(name) => Seq::empty(),
            None => seq![shape_grid(bank.last()@)],
        }
    }
}

pub open spec fn bank_word() -> Seq<char> {
    seq!['s', 'h', 'a', 'p', 'e', ' ', 'b', 'a', 'n', 'k']
}

/// The shape bank rule: the names after `shape bank`, then the drawings
/// on the following lines, a blank line between two drawings.
pub open spec fn bank_rule(bank: Seq<Shape>) -> Seq<char> {
    let names = bank_names(bank);
    let grids = bank_grids(bank);
    if names.len() > 0 {
        bank_word() + seq![' '] + join(names, seq![' ']) + if grids.len() > 0 {
            seq!['\n'] + join(grids, seq!['\n', '\n'])
        } else {
            Seq::empty()
        }
    } else {
        bank_word() + seq!['\n'] + join(grids, seq!['\n', '\n'])
    }
}

/// The rules that are on or off, in the order in which they are written.
pub open spec fn flag_rules(r: GlobalRules) -> Seq<Seq<char>> {
    flag(r.mingle_shape, seq!['m', 'i', 'n', 'g', 'l', 'e', ' ', 's', 'h', 'a', 'p', 'e']) + flag(
        r.size_separation,
        seq!['s', 'i', 'z', 'e', ' ', 's', 'e', 'p', 'a', 'r', 'a', 't', 'i', 'o', 'n'],
    ) + flag(r.mismatch, seq!['m', 'i', 's', 'm', 'a', 't', 'c', 'h']) + flag(r.match_all, seq!['m', 'a', 't', 'c', 'h'])
        + flag(r.solitude, seq!['s', 'o', 'l', 'i', 't', 'u', 'd', 'e']) + flag(r.boxy, seq!['b', 'o', 'x', 'y']) + flag(
        r.non_boxy,
        seq!['n', 'o', 'n', '-', 'b', 'o', 'x', 'y'],
    ) + flag(r.bricky, seq!['b', 'r', 'i', 'c', 'k', 'y']) + flag(r.loopy, seq!['l', 'o', 'o', 'p', 'y'])
}

/// The rules, in the order in which they are written.
pub open spec fn rule_items(r: GlobalRules) -> Seq<Seq<char>> {
    flag_rules(r) + bound_rules(r.minimum, r.maximum) + if r.shape_bank@.len() > 0 {
        seq![bank_rule(r.shape_bank@)]
    } else {
        Seq::empty()
    }
}

/// The texts of the items.
pub open spec fn texts(items: Seq<Vec<char>>) -> Seq<Seq<char>> {
    items.map_values(|v: Vec<char>| v@)
}

/// Adds an item when `on`.
fn add_flag(items: &mut Vec<Vec<char>>, on: bool, text: &[char])
    ensures
        texts(final(items)@) == texts(old(items)@) + flag(on, text@),
{
    if on {
        let mut v: Vec<char> = Vec::new();
        push_all(&mut v, text);
        items.push(v);
    }
    proof {
        assert(texts(items@) =~= texts(old(items)@) + flag(on, text@));
    }
}

/// A word followed by a number.
fn word_number(word: &[char], n: usize) -> (v: Vec<char>)
    ensures
        v@ == word@ + dec(n as nat),
{
    let mut v: Vec<char> = Vec::new();
    push_all(&mut v, word);
    push_dec(&mut v, n);
    v
}

/// Joins the texts with `sep` between two of them.
fn push_joined(out: &mut Vec<char>, items: &Vec<Vec<char>>, sep: &[char])
    ensures
        final(out)@ == old(out)@ + join(texts(items@), sep@),
{
    let ghost start = out@;
    let mut i: usize = 0;
    while i < items.len()
        invariant
            i <= items@.len(),
            out@ == start + join(texts(items@).take(i as int), sep@),
        decreases items@.len() - i,
    {
        if i > 0 {
            push_all(out, sep);
        }
        push_all(out, items[i].as_slice());
        proof {
            let t = texts(items@).take(i + 1);
            assert(t.drop_last() =~= texts(items@).take(i as int));
            assert(t.last() == items@[i as int]@);
            if i == 0 {
                assert(texts(items@).take(0) =~= Seq::<Seq<char>>::empty());
            }
            assert(out@ =~= start + join(t, sep@));
        }
        i = i + 1;
    }
    proof {
        assert(texts(items@).take(items@.len() as int) =~= texts(items@));
    }
}

/// The shape bank rule (see `bank_rule`).
fn bank_rule_exec(bank: &Vec<Shape>) -> (v: Vec<char>)
    requires
        forall|b: int| 0 <= b < bank@.len() ==> shape_ok(#[trigger] bank@[b]) && shape_fits(bank@[b]),
    ensures
        v@ == bank_rule(bank@),
{
    let mut names: Vec<Vec<char>> = Vec::new();
    let mut grids: Vec<Vec<char>> = Vec::new();
    let mut i: usize = 0;
    proof {
        assert(bank@.take(0) =~= Seq::<Shape>::empty());
    }
    while i < bank.len()
        invariant
            i <= bank@.len(),
            forall|b: int| 0 <= b < bank@.len() ==> shape_ok(#[trigger] bank@[b]) && shape_fits(bank@[b]),
            texts(names@) == bank_names(bank@.take(i as int)),
            texts(grids@) == bank_grids(bank@.take(i as int)),
        decreases bank@.len() - i,
    {
        let ghost t = bank@.take(i + 1);
        proof {
            assert(t.drop_last() =~= bank@.take(i as int));
            assert(t.last() == bank@[i as int]);
            assert(shape_ok(bank@[i as int]) && shape_fits(bank@[i as int]));
        }
        let ghost n0 = names@;
        let ghost g0 = grids@;
        match shape_name(&bank[i]) {
            Some(name) => {
                let mut v: Vec<char> = Vec::new();
                push_bytes(&mut v, &name);
                names.push(v);
                proof {
                    assert(texts(names@) =~= texts(n0) + seq![text_of(name@)]);
                    assert(texts(grids@) =~= texts(g0) + Seq::<Seq<char>>::empty());
                }
            },
            None => {
                let mut v: Vec<char> = Vec::new();
                push_shape_grid(&mut v, &bank[i]);
                grids.push(v);
                proof {
                    assert(texts(grids@) =~= texts(g0) + seq![shape_grid(bank@[i as int]@)]);
                    assert(texts(names@) =~= texts(n0) + Seq::<Seq<char>>::empty());
                }
            },
        }
        i = i + 1;
    }
    proof {
        assert(bank@.take(bank@.len() as int) =~= bank@);
    }
    let word = ['s', 'h', 'a', 'p', 'e', ' ', 'b', 'a', 'n', 'k'];
    let space = [' '];
    let blank = ['\n', '\n'];
    proof {
        assert(word@ == bank_word());
        assert(space@ == seq![' ']);
        assert(blank@ == seq!['\n', '\n']);
    }
    let mut v: Vec<char> = Vec::new();
    push_all(&mut v, &word);
    if names.len() > 0 {
        v.push(' ');
        push_joined(&mut v, &names, &space);
        let ghost mid = v@;
        if grids.len() > 0 {
            v.push('\n');
            push_joined(&mut v, &grids, &blank);
            proof {
                assert(v@ =~= mid + (seq!['\n'] + join(texts(grids@), seq!['\n', '\n'])));
            }
        } else {
            proof {
                assert(v@ =~= mid + Seq::<char>::empty());
            }
        }
        proof {
            assert(v@ =~= bank_rule(bank@));
        }
    } else {
        v.push('\n');
        push_joined(&mut v, &grids, &blank);
        proof {
            assert(v@ =~= bank_rule(bank@));
        }
    }
    v
}

/// The rules that are on (see `flag_rules`).
fn flag_rules_exec(r: &GlobalRules) -> (items: Vec<Vec<char>>)
    ensures
        texts(items@) == flag_rules(*r),
{
    let mut items: Vec<Vec<char>> = Vec::new();
    let a1 = ['m', 'i', 'n', 'g', 'l', 'e', ' ', 's', 'h', 'a', 'p', 'e'];
    let a2 = ['s', 'i', 'z', 'e', ' ', 's', 'e', 'p', 'a', 'r', 'a', 't', 'i', 'o', 'n'];
    let a3 = ['m', 'i', 's', 'm', 'a', 't', 'c', 'h'];
    let a4 = ['m', 'a', 't', 'c', 'h'];
    let a5 = ['s', 'o', 'l', 'i', 't', 'u', 'd', 'e'];
    let a6 = ['b', 'o', 'x', 'y'];
    let a7 = ['n', 'o', 'n', '-', 'b', 'o', 'x', 'y'];
    let a8 = ['b', 'r', 'i', 'c', 'k', 'y'];
    let a9 = ['l', 'o', 'o', 'p', 'y'];
    add_flag(&mut items, r.mingle_shape, &a1);
    add_flag(&mut items, r.size_separation, &a2);
    add_flag(&mut items, r.mismatch, &a3);
    add_flag(&mut items, r.match_all, &a4);
    add_flag(&mut items, r.solitude, &a5);
    add_flag(&mut items, r.boxy, &a6);
    add_flag(&mut items, r.non_boxy, &a7);
    add_flag(&mut items, r.bricky, &a8);
    add_flag(&mut items, r.loopy, &a9);
    proof {
        assert(a1@ == seq!['m', 'i', 'n', 'g', 'l', 'e', ' ', 's', 'h', 'a', 'p', 'e']);
        assert(a2@ == seq!['s', 'i', 'z', 'e', ' ', 's', 'e', 'p', 'a', 'r', 'a', 't', 'i', 'o', 'n']);
        assert(a3@ == seq!['m', 'i', 's', 'm', 'a', 't', 'c', 'h']);
        assert(a4@ == seq!['m', 'a', 't', 'c', 'h']);
        assert(a5@ == seq!['s', 'o', 'l', 'i', 't', 'u', 'd', 'e']);
        assert(a6@ == seq!['b', 'o', 'x', 'y']);
        assert(a7@ == seq!['n', 'o', 'n', '-', 'b', 'o', 'x', 'y']);
        assert(a8@ == seq!['b', 'r', 'i', 'c', 'k', 'y']);
        assert(a9@ == seq!['l', 'o', 'o', 'p', 'y']);
        assert(texts(items@) =~= flag_rules(*r));
    }
    items
}

/// Adds the area rules (see `bound_rules`).
fn add_bound_rules(items: &mut Vec<Vec<char>>, min: Option<usize>, max: Option<usize>)
    ensures
        texts(final(items)@) == texts(old(items)@) + bound_rules(min, max),
{
    let precision = ['p', 'r', 'e', 'c', 'i', 's', 'i', 'o', 'n', ' '];
    let minimum = ['m', 'i', 'n', 'i', 'm', 'u', 'm', ' '];
    let maximum = ['m', 'a', 'x', 'i', 'm', 'u', 'm', ' '];
    proof {
        assert(precision@ == precision_word());
        assert(minimum@ == minimum_word());
        assert(maximum@ == maximum_word());
    }
    match (min, max) {
        (Some(v), Some(u)) => {
            if v == u {
                items.push(word_number(&precision, v));
            } else {
                items.push(word_number(&minimum, v));
                items.push(word_number(&maximum, u));
            }
        },
        (Some(v), None) => {
            items.push(word_number(&minimum, v));
        },
        (None, Some(u)) => {
            items.push(word_number(&maximum, u));
        },
        (None, None) => {},
    }
    proof {
        assert(texts(items@) =~= texts(old(items)@) + bound_rules(min, max));
    }
}

/// The rules (see `rule_items`).
fn rules_exec(r: &GlobalRules) -> (items: Vec<Vec<char>>)
    requires
        forall|b: int| 0 <= b < r.shape_bank@.len() ==> shape_ok(#[trigger] r.shape_bank@[b]) && shape_fits(r.shape_bank@[b]),
    ensures
        texts(items@) == rule_items(*r),
{
    let mut items = flag_rules_exec(r);
    add_bound_rules(&mut items, r.minimum, r.maximum);
    let ghost before = texts(items@);
    if r.shape_bank.len() > 0 {
        items.push(bank_rule_exec(&r.shape_bank));
    }
    proof {
        assert(texts(items@) =~= before + if r.shape_bank@.len() > 0 {
            seq![bank_rule(r.shape_bank@)]
        } else {
            Seq::<Seq<char>>::empty()
        });
    }
    items
}

// ── Entries ──────────────────────────────────────────────────────────────────

/// The entries with their texts as sequences.
pub open spec fn entry_views(v: Seq<(usize, Vec<char>)>) -> Seq<(usize, Seq<char>)> {
    v.map_values(|e: (usize, Vec<char>)| (e.0, e.1@))
}

/// `"key": "value"`.
pub open spec fn pair_text(key: Seq<char>, value: Seq<char>) -> Seq<char> {
    seq!['"'] + key + seq!['"', ':', ' ', '"'] + value + seq!['"']
}

/// The last of the first `k` clues written on cell `c`.
pub open spec fn last_cell_clue(clues: Seq<CellClue>, c: int, k: int) -> Option<CellClue>
    decreases k,
{
    if k <= 0 {
        None
    } else if clues[k - 1].spec_cell() == c {
        Some(clues[k - 1])
    } else {
        last_cell_clue(clues, c, k - 1)
    }
}

/// The text of cell `c`: its last clue, escaped, or `_`.
pub open spec fn cell_value(clues: Seq<CellClue>, c: int) -> Seq<char> {
    match last_cell_clue(clues, c, clues.len() as int) {
        Some(cl) => escape(clue_text(cl)),
        None => seq!['_'],
    }
}

/// The entries of the first `k` cells: one per existing cell, with its row.
pub open spec fn cell_entries(g: Grid, clues: Seq<CellClue>, k: int) -> Seq<(usize, Seq<char>)>
    decreases k,
{
    if k <= 0 {
        Seq::empty()
    } else {
        cell_entries(g, clues, k - 1) + if g.cell_exists@[k - 1] {
            seq![(((k - 1) / (g.cols as int)) as usize, pair_text(pos_text(g, k - 1), cell_value(clues, k - 1)))]
        } else {
            Seq::empty()
        }
    }
}

/// The kind of the last of the first `k` edge clues on edge `e`.
pub open spec fn last_edge_clue(clues: Seq<EdgeClue>, e: int, k: int) -> Option<EdgeClueKind>
    decreases k,
{
    if k <= 0 {
        None
    } else if clues[k - 1].edge == e {
        Some(clues[k - 1].kind)
    } else {
        last_edge_clue(clues, e, k - 1)
    }
}

/// Edge `e` lies between two rows.
pub open spec fn edge_horizontal(g: Grid, e: int) -> bool {
    g.edge_cells_of(e).0 / (g.cols as int) != g.edge_cells_of(e).1 / (g.cols as int)
}

/// The text of edge `e`: its last clue, or a line where the drawing cuts it.
pub open spec fn edge_value(g: Grid, clues: Seq<EdgeClue>, pre: Seq<EdgeId>, e: int) -> Option<Seq<char>> {
    match last_edge_clue(clues, e, clues.len() as int) {
        Some(kind) => Some(edge_clue_text(kind, edge_horizontal(g, e))),
        None => if pre.contains(e as usize) {
            Some(
                if edge_horizontal(g, e) {
                    seq!['-']
                } else {
                    seq!['|']
                },
            )
        } else {
            None
        },
    }
}

/// The entry of edge `e`, when it lies between two existing cells and has a text.
pub open spec fn edge_entry(g: Grid, clues: Seq<EdgeClue>, pre: Seq<EdgeId>, e: int) -> Seq<(usize, Seq<char>)> {
    let (c1, c2) = g.edge_cells_of(e);
    let sep = if edge_horizontal(g, e) {
        '-'
    } else {
        '|'
    };
    if g.cell_exists@[c1] && g.cell_exists@[c2] && edge_value(g, clues, pre, e) is Some {
        seq![
            ((c1 / (g.cols as int)) as usize, pair_text(
                pos_text(g, c1) + seq![sep] + pos_text(g, c2),
                edge_value(g, clues, pre, e)->0,
            )),
        ]
    } else {
        Seq::empty()
    }
}

/// The entries of the first `k` edges.
pub open spec fn edge_entries(g: Grid, clues: Seq<EdgeClue>, pre: Seq<EdgeId>, k: int) -> Seq<(usize, Seq<char>)>
    decreases k,
{
    if k <= 0 {
        Seq::empty()
    } else {
        edge_entries(g, clues, pre, k - 1) + edge_entry(g, clues, pre, k - 1)
    }
}

/// The value of the last of the first `k` watchtower clues on grid point `v`.
pub open spec fn last_vertex_clue(clues: Seq<VertexClue>, v: int, k: int) -> Option<usize>
    decreases k,
{
    if k <= 0 {
        None
    } else if clues[k - 1].vertex == v {
        Some(clues[k - 1].value)
    } else {
        last_vertex_clue(clues, v, k - 1)
    }
}

/// The entry of inner grid point (i, j), when its top-left and bottom-right
/// cells exist and it carries a watchtower clue.
pub open spec fn vertex_entry(g: Grid, clues: Seq<VertexClue>, i: int, j: int) -> Seq<(usize, Seq<char>)> {
    let tl = g.cell_at(i - 1, j - 1);
    let br = g.cell_at(i, j);
    let v = last_vertex_clue(clues, g.vertex_at(i, j), clues.len() as int);
    if g.cell_exists@[tl] && g.cell_exists@[br] && v is Some {
        seq![((i - 1) as usize, pair_text(pos_text(g, tl) + seq!['+'] + pos_text(g, br), vertex_clue_text(v->0)))]
    } else {
        Seq::empty()
    }
}

/// The entries of the grid points (i, 1) to (i, j - 1).
pub open spec fn vertex_row(g: Grid, clues: Seq<VertexClue>, i: int, j: int) -> Seq<(usize, Seq<char>)>
    decreases j,
{
    if j <= 1 {
        Seq::empty()
    } else {
        vertex_row(g, clues, i, j - 1) + vertex_entry(g, clues, i, j - 1)
    }
}

/// The entries of the inner grid points of rows 1 to i - 1.
pub open spec fn vertex_entries(g: Grid, clues: Seq<VertexClue>, i: int) -> Seq<(usize, Seq<char>)>
    decreases i,
{
    if i <= 1 {
        Seq::empty()
    } else {
        vertex_entries(g, clues, i - 1) + vertex_row(g, clues, i - 1, g.cols as int)
    }
}

/// The index of the last clue on cell `c`.
fn find_cell_clue(clues: &Vec<CellClue>, c: usize) -> (r: Option<usize>)
    ensures
        r matches Some(k) ==> k < clues@.len() && last_cell_clue(clues@, c as int, clues@.len() as int) == Some(clues@[k as int]),
        r is None ==> last_cell_clue(clues@, c as int, clues@.len() as int) is None,
{
    let mut k = clues.len();
    while k > 0
        invariant
            k <= clues@.len(),
            last_cell_clue(clues@, c as int, clues@.len() as int) == last_cell_clue(clues@, c as int, k as int),
        decreases k,
    {
        if clues[k - 1].cell() == c {
            return Some(k - 1);
        }
        k = k - 1;
    }
    None
}

/// The kind of the last clue on edge `e`.
fn find_edge_clue(clues: &Vec<EdgeClue>, e: usize) -> (r: Option<EdgeClueKind>)
    ensures
        r == last_edge_clue(clues@, e as int, clues@.len() as int),
{
    let mut k = clues.len();
    while k > 0
        invariant
            k <= clues@.len(),
            last_edge_clue(clues@, e as int, clues@.len() as int) == last_edge_clue(clues@, e as int, k as int),
        decreases k,
    {
        if clues[k - 1].edge == e {
            return Some(clues[k - 1].kind);
        }
        k = k - 1;
    }
    None
}

/// The value of the last watchtower clue on grid point `v`.
fn find_vertex_clue(clues: &Vec<VertexClue>, v: usize) -> (r: Option<usize>)
    ensures
        r == last_vertex_clue(clues@, v as int, clues@.len() as int),
{
    let mut k = clues.len();
    while k > 0
        invariant
            k <= clues@.len(),
            last_vertex_clue(clues@, v as int, clues@.len() as int) == last_vertex_clue(clues@, v as int, k as int),
        decreases k,
    {
        if clues[k - 1].vertex == v {
            return Some(clues[k - 1].value);
        }
        k = k - 1;
    }
    None
}

/// Whether `x` is among the entries.
fn contains_id(v: &Vec<usize>, x: usize) -> (r: bool)
    ensures
        r == v@.contains(x),
{
    let mut k: usize = 0;
    while k < v.len()
        invariant
            k <= v@.len(),
            forall|j: int| 0 <= j < k ==> v@[j] != x,
        decreases v@.len() - k,
    {
        if v[k] == x {
            proof {
                assert(v@[k as int] == x);
            }
            return true;
        }
        k = k + 1;
    }
    false
}

/// Appends `"key": "value"` given the key's and value's texts.
fn push_pair(out: &mut Vec<char>, key: &Vec<char>, value: &Vec<char>)
    ensures
        final(out)@ == old(out)@ + pair_text(key@, value@),
{
    out.push('"');
    push_all(out, key.as_slice());
    out.push('"');
    out.push(':');
    out.push(' ');
    out.push('"');
    push_all(out, value.as_slice());
    out.push('"');
    proof {
        assert(out@ =~= old(out)@ + pair_text(key@, value@));
    }
}

/// The entries of the cells (see `cell_entries`).
fn cell_entries_exec(g: &Grid, clues: &Vec<CellClue>) -> (v: Vec<(usize, Vec<char>)>)
    requires
        g.wf(),
        g.rows < 160,
        forall|k: int|
            0 <= k < clues@.len() ==> (#[trigger] clues@[k] matches CellClue::Polyomino { shape, .. } ==> shape_ok(shape)
                && shape_fits(shape)),
        forall|k: int| 0 <= k < clues@.len() ==> (#[trigger] clues@[k] matches CellClue::Rose { symbol, .. } ==> symbol <= 190),
    ensures
        entry_views(v@) == cell_entries(*g, clues@, g.n_cells()),
{
    proof {
        g.lemma_sizes();
    }
    let n = g.num_cells();
    let mut v: Vec<(usize, Vec<char>)> = Vec::new();
    let mut c: usize = 0;
    while c < n
        invariant
            g.wf(),
            g.rows < 160,
            n == g.n_cells(),
            c <= n,
            forall|k: int|
                0 <= k < clues@.len() ==> (#[trigger] clues@[k] matches CellClue::Polyomino { shape, .. } ==> shape_ok(shape)
                    && shape_fits(shape)),
            forall|k: int|
                0 <= k < clues@.len() ==> (#[trigger] clues@[k] matches CellClue::Rose { symbol, .. } ==> symbol <= 190),
            entry_views(v@) == cell_entries(*g, clues@, c as int),
        decreases n - c,
    {
        let ghost before = v@;
        if g.cell_exists[c] {
            let mut key: Vec<char> = Vec::new();
            push_pos(&mut key, g, c);
            let mut value: Vec<char> = Vec::new();
            match find_cell_clue(clues, c) {
                Some(k) => {
                    let mut text: Vec<char> = Vec::new();
                    proof {
                        assert(clues@[k as int] == clues@[k as int]);
                    }
                    push_clue_text(&mut text, &clues[k]);
                    push_escaped(&mut value, &text);
                },
                None => value.push('_'),
            }
            let mut entry: Vec<char> = Vec::new();
            push_pair(&mut entry, &key, &value);
            proof {
                if g.cols == 0 {
                    assert(g.rows * g.cols == 0) by (nonlinear_arith)
                        requires
                            g.cols == 0,
                    ;
                }
            }
            let (r, _) = g.cell_pos(c);
            v.push((r, entry));
            proof {
                assert(value@ =~= cell_value(clues@, c as int));
                assert(entry_views(v@) =~= entry_views(before).push((r, entry@)));
                assert(entry_views(v@) =~= cell_entries(*g, clues@, c + 1));
            }
        } else {
            proof {
                assert(cell_entries(*g, clues@, c + 1) =~= cell_entries(*g, clues@, c as int));
            }
        }
        c = c + 1;
    }
    v
}

/// The entries of the edges (see `edge_entries`).
fn edge_entries_exec(g: &Grid, clues: &Vec<EdgeClue>, pre: &Vec<EdgeId>) -> (v: Vec<(usize, Vec<char>)>)
    requires
        g.wf(),
        g.rows < 160,
    ensures
        entry_views(v@) == edge_entries(*g, clues@, pre@, g.n_edges()),
{
    proof {
        g.lemma_sizes();
    }
    let ne = g.num_edges();
    let mut v: Vec<(usize, Vec<char>)> = Vec::new();
    let mut e: usize = 0;
    while e < ne
        invariant
            g.wf(),
            g.rows < 160,
            ne == g.n_edges(),
            e <= ne,
            entry_views(v@) == edge_entries(*g, clues@, pre@, e as int),
        decreases ne - e,
    {
        let ghost before = v@;
        let (c1, c2) = g.edge_cells(e);
        proof {
            if g.cols == 0 {
                assert(g.rows * g.cols == 0) by (nonlinear_arith)
                    requires
                        g.cols == 0,
                ;
            }
        }
        if g.cell_exists[c1] && g.cell_exists[c2] {
            let (r1, _) = g.cell_pos(c1);
            let (r2, _) = g.cell_pos(c2);
            let horizontal = r1 != r2;
            let mut value: Vec<char> = Vec::new();
            let has = match find_edge_clue(clues, e) {
                Some(kind) => {
                    push_edge_clue_text(&mut value, kind, horizontal);
                    true
                },
                None => {
                    if contains_id(pre, e) {
                        value.push(
                            if horizontal {
                                '-'
                            } else {
                                '|'
                            },
                        );
                        true
                    } else {
                        false
                    }
                },
            };
            proof {
                assert(horizontal == edge_horizontal(*g, e as int));
                if has {
                    assert(edge_value(*g, clues@, pre@, e as int) == Some(value@));
                } else {
                    assert(edge_value(*g, clues@, pre@, e as int) is None);
                }
            }
            if has {
                let mut key: Vec<char> = Vec::new();
                push_pos(&mut key, g, c1);
                key.push(
                    if horizontal {
                        '-'
                    } else {
                        '|'
                    },
                );
                push_pos(&mut key, g, c2);
                let mut entry: Vec<char> = Vec::new();
                push_pair(&mut entry, &key, &value);
                v.push((r1, entry));
                proof {
                    let sep = if edge_horizontal(*g, e as int) {
                        '-'
                    } else {
                        '|'
                    };
                    assert(key@ =~= pos_text(*g, c1 as int) + seq![sep] + pos_text(*g, c2 as int));
                    assert(edge_value(*g, clues@, pre@, e as int)->0 == value@);
                    assert(r1 as int == (c1 as int) / (g.cols as int));
                    assert(entry_views(v@) =~= entry_views(before).push((r1, entry@)));
                    assert(edge_entry(*g, clues@, pre@, e as int) =~= seq![(r1, entry@)]);
                }
            } else {
                proof {
                    assert(edge_entry(*g, clues@, pre@, e as int) =~= Seq::<(usize, Seq<char>)>::empty());
                }
            }
        } else {
            proof {
                assert(edge_entry(*g, clues@, pre@, e as int) =~= Seq::<(usize, Seq<char>)>::empty());
            }
        }
        proof {
            assert(entry_views(v@) =~= edge_entries(*g, clues@, pre@, e + 1));
        }
        e = e + 1;
    }
    v
}

/// The entries of the watchtower clues (see `vertex_entries`).
fn vertex_entries_exec(g: &Grid, clues: &Vec<VertexClue>) -> (v: Vec<(usize, Vec<char>)>)
    requires
        g.wf(),
        g.rows < 160,
    ensures
        entry_views(v@) == vertex_entries(*g, clues@, g.rows as int),
{
    proof {
        g.lemma_sizes();
    }
    let mut v: Vec<(usize, Vec<char>)> = Vec::new();
    if g.rows == 0 {
        proof {
            assert(entry_views(v@) =~= vertex_entries(*g, clues@, g.rows as int));
        }
        return v;
    }
    let mut i: usize = 1;
    while i < g.rows
        invariant
            g.wf(),
            g.rows < 160,
            1 <= i <= g.rows,
            entry_views(v@) == vertex_entries(*g, clues@, i as int),
        decreases g.rows - i,
    {
        let ghost row_start = v@;
        let mut j: usize = 1;
        if g.cols == 0 {
            proof {
                assert(vertex_row(*g, clues@, i as int, g.cols as int) =~= Seq::<(usize, Seq<char>)>::empty());
                assert(entry_views(v@) =~= vertex_entries(*g, clues@, i + 1));
            }
            i = i + 1;
            continue;
        }
        while j < g.cols
            invariant
                g.wf(),
                g.rows < 160,
                1 <= i < g.rows,
                1 <= j <= g.cols,
                entry_views(v@) == vertex_entries(*g, clues@, i as int) + vertex_row(*g, clues@, i as int, j as int),
            decreases g.cols - j,
        {
            let ghost before = v@;
            proof {
                g.lemma_sizes();
                crate::grid::lemma_index_in_box((i - 1) as int, (j - 1) as int, g.rows as int, g.cols as int);
                crate::grid::lemma_index_in_box(i as int, j as int, g.rows as int, g.cols as int);
            }
            let tl = g.cell_id(i - 1, j - 1);
            let br = g.cell_id(i, j);
            let mut pushed = false;
            if g.cell_exists[tl] && g.cell_exists[br] {
                let vid = g.vertex(i, j);
                if let Some(value) = find_vertex_clue(clues, vid) {
                    let mut key: Vec<char> = Vec::new();
                    push_pos(&mut key, g, tl);
                    key.push('+');
                    push_pos(&mut key, g, br);
                    let mut text: Vec<char> = Vec::new();
                    push_vertex_clue_text(&mut text, value);
                    let mut entry: Vec<char> = Vec::new();
                    push_pair(&mut entry, &key, &text);
                    v.push((i - 1, entry));
                    pushed = true;
                    proof {
                        assert(key@ =~= pos_text(*g, tl as int) + seq!['+'] + pos_text(*g, br as int));
                        assert(text@ == vertex_clue_text(value));
                        assert(tl as int == g.cell_at(i - 1, j - 1));
                        assert(br as int == g.cell_at(i as int, j as int));
                        assert(last_vertex_clue(clues@, g.vertex_at(i as int, j as int), clues@.len() as int) == Some(value));
                        assert(entry_views(v@) =~= entry_views(before).push(((i - 1) as usize, entry@)));
                        assert(vertex_entry(*g, clues@, i as int, j as int) =~= seq![((i - 1) as usize, entry@)]);
                    }
                }
            }
            if !pushed {
                proof {
                    assert(vertex_entry(*g, clues@, i as int, j as int) =~= Seq::<(usize, Seq<char>)>::empty());
                }
            }
            proof {
                assert(vertex_row(*g, clues@, i as int, j + 1) == vertex_row(*g, clues@, i as int, j as int) + vertex_entry(
                    *g,
                    clues@,
                    i as int,
                    j as int,
                ));
                assert(entry_views(v@) =~= vertex_entries(*g, clues@, i as int) + vertex_row(*g, clues@, i as int, j + 1));
            }
            j = j + 1;
        }
        proof {
            assert(entry_views(v@) =~= vertex_entries(*g, clues@, i + 1));
        }
        i = i + 1;
    }
    v
}

// ── A drawn solution ─────────────────────────────────────────────────────────

/// The line starts a drawn solution: `#`, then `+`, after white space.
pub open spec fn starts_solution(l: Seq<u8>) -> bool {
    let t = trim_start(l);
    &&& t.len() > 0
    &&& t[0] == ascii::HASH
    &&& trim_start(t.drop_first()).len() > 0
    &&& trim_start(t.drop_first())[0] == ascii::PLUS
}

/// The first line, from the `k`-th on, that starts a drawn solution.
pub open spec fn first_solution_line(lines: Seq<Seq<u8>>, k: int) -> Option<int>
    decreases lines.len() - k,
{
    if k < 0 || k >= lines.len() {
        None
    } else if starts_solution(lines[k]) {
        Some(k)
    } else {
        first_solution_line(lines, k + 1)
    }
}

/// The line starts with `#` after white space.
pub open spec fn hash_line(l: Seq<u8>) -> bool {
    trim_start(l).len() > 0 && trim_start(l)[0] == ascii::HASH
}

/// The end of the run of digits that starts at `i`.
pub open spec fn digit_run_end(s: Seq<u8>, i: int) -> int
    decreases s.len() - i,
{
    if 0 <= i < s.len() && is_digit(s[i]) {
        digit_run_end(s, i + 1)
    } else {
        i
    }
}

pub proof fn lemma_digit_run_end(s: Seq<u8>, i: int)
    requires
        0 <= i <= s.len(),
    ensures
        i <= digit_run_end(s, i) <= s.len(),
        i < s.len() && is_digit(s[i]) ==> i < digit_run_end(s, i),
    decreases s.len() - i,
{
    if i < s.len() && is_digit(s[i]) {
        lemma_digit_run_end(s, i + 1);
    }
}

/// The numbers in the text from position `i` on: each run of digits whose
/// value fits in a `usize`.
pub open spec fn numbers_from(s: Seq<u8>, i: int) -> Seq<usize>
    decreases s.len() - i,
{
    if i < 0 || i >= s.len() {
        Seq::empty()
    } else if is_digit(s[i]) {
        let j = digit_run_end(s, i);
        proof {
            lemma_digit_run_end(s, i);
        }
        (match parse_usize_spec(s.subrange(i, j)) {
            Some(v) => seq![v],
            None => Seq::empty(),
        }) + numbers_from(s, j)
    } else {
        numbers_from(s, i + 1)
    }
}

/// The numbers of the solution lines from the `k`-th on, while they start with `#`.
pub open spec fn solution_numbers(lines: Seq<Seq<u8>>, k: int) -> Seq<usize>
    decreases lines.len() - k,
{
    if k < 0 || k >= lines.len() || !hash_line(lines[k]) {
        Seq::empty()
    } else {
        numbers_from(trim_start(lines[k]).drop_first(), 0) + solution_numbers(lines, k + 1)
    }
}

/// The existing cells among the first `k`, in order.
pub open spec fn existing_cells(g: Grid, k: int) -> Seq<int>
    decreases k,
{
    if k <= 0 {
        Seq::empty()
    } else {
        existing_cells(g, k - 1) + if g.cell_exists@[k - 1] {
            seq![k - 1]
        } else {
            Seq::empty()
        }
    }
}

/// The row by which a solution entry of row `r` is grouped: the first byte
/// of the cell's name, less `a`.
pub open spec fn row_key(r: int) -> usize {
    if 97 + r < 128 {
        r as usize
    } else if 97 + r < 192 {
        97
    } else {
        98
    }
}

/// The entries of the drawn solution, when the input holds one with a
/// number for every existing cell: `"cell": number`.
pub open spec fn solution_entries(g: Grid, lines: Seq<Seq<u8>>) -> Option<Seq<(usize, Seq<char>)>> {
    match first_solution_line(lines, 0) {
        None => None,
        Some(start) => {
            let nums = solution_numbers(lines, start);
            let cells = existing_cells(g, g.n_cells());
            if nums.len() != cells.len() {
                None
            } else {
                Some(
                    Seq::new(
                        cells.len(),
                        |k: int|
                            (
                                row_key(cells[k] / (g.cols as int)),
                                seq!['"'] + pos_text(g, cells[k]) + seq!['"', ':', ' '] + dec(nums[k] as nat),
                            ),
                    ),
                )
            }
        },
    }
}

/// The numbers in the text (see `numbers_from`).
fn numbers_exec(s: &Vec<u8>) -> (v: Vec<usize>)
    ensures
        v@ == numbers_from(s@, 0),
{
    let mut v: Vec<usize> = Vec::new();
    let mut i: usize = 0;
    while i < s.len()
        invariant
            i <= s@.len(),
            v@ + numbers_from(s@, i as int) == numbers_from(s@, 0),
        decreases s@.len() - i,
    {
        if is_digit_byte(s[i]) {
            let mut j = i + 1;
            while j < s.len() && is_digit_byte(s[j])
                invariant
                    i < j <= s@.len(),
                    digit_run_end(s@, i as int) == digit_run_end(s@, j as int),
                decreases s@.len() - j,
            {
                j = j + 1;
            }
            let ghost before = v@;
            match parse_usize_range(s.as_slice(), i, j) {
                Some(n) => v.push(n),
                None => {},
            }
            proof {
                assert(digit_run_end(s@, i as int) == j);
                assert(v@ + numbers_from(s@, j as int) =~= before + numbers_from(s@, i as int));
            }
            i = j;
        } else {
            i = i + 1;
        }
    }
    proof {
        assert(v@ + numbers_from(s@, i as int) =~= v@);
    }
    v
}

/// The line, after its leading white space and the `#` that follows it.
fn after_hash(l: &Vec<u8>) -> (r: Option<Vec<u8>>)
    ensures
        r matches Some(v) ==> hash_line(l@) && v@ == trim_start(l@).drop_first(),
        r is None ==> !hash_line(l@),
{
    let i = skip_ws(l.as_slice(), 0, l.len());
    proof {
        assert(l@.subrange(0, l@.len() as int) =~= l@);
        lemma_lead_ws(l@);
    }
    if i < l.len() && l[i] == ascii::HASH {
        let v = slice_copy(l.as_slice(), i + 1, l.len());
        proof {
            assert(v@ =~= trim_start(l@).drop_first());
        }
        Some(v)
    } else {
        None
    }
}

/// Whether the line starts a drawn solution.
fn starts_solution_exec(l: &Vec<u8>) -> (b: bool)
    ensures
        b == starts_solution(l@),
{
    match after_hash(l) {
        Some(rest) => {
            let j = skip_ws(rest.as_slice(), 0, rest.len());
            proof {
                assert(rest@.subrange(0, rest@.len() as int) =~= rest@);
                lemma_lead_ws(rest@);
            }
            j < rest.len() && rest[j] == ascii::PLUS
        },
        None => false,
    }
}

/// The entries of the drawn solution (see `solution_entries`).
fn solution_entries_exec(g: &Grid, lines: &Vec<Vec<u8>>) -> (r: Option<Vec<(usize, Vec<char>)>>)
    requires
        g.wf(),
        g.rows < 160,
    ensures
        r matches Some(v) ==> solution_entries(*g, lines@.map_values(|l: Vec<u8>| l@)) == Some(entry_views(v@)),
        r is None ==> solution_entries(*g, lines@.map_values(|l: Vec<u8>| l@)) is None,
{
    let ghost ls = lines@.map_values(|l: Vec<u8>| l@);
    let mut k: usize = 0;
    while k < lines.len() && !starts_solution_exec(&lines[k])
        invariant
            k <= lines@.len(),
            ls == lines@.map_values(|l: Vec<u8>| l@),
            first_solution_line(ls, 0) == first_solution_line(ls, k as int),
        decreases lines@.len() - k,
    {
        k = k + 1;
    }
    if k == lines.len() {
        return None;
    }
    let start = k;
    let mut nums: Vec<usize> = Vec::new();
    let mut done = false;
    while k < lines.len() && !done
        invariant
            start <= k <= lines@.len(),
            ls == lines@.map_values(|l: Vec<u8>| l@),
            first_solution_line(ls, 0) == Some(start as int),
            done ==> nums@ == solution_numbers(ls, start as int),
            !done ==> nums@ + solution_numbers(ls, k as int) == solution_numbers(ls, start as int),
        decreases lines@.len() - k + if done {
            0int
        } else {
            1int
        },
    {
        match after_hash(&lines[k]) {
            Some(rest) => {
                let found = numbers_exec(&rest);
                let ghost before = nums@;
                let mut i: usize = 0;
                while i < found.len()
                    invariant
                        i <= found@.len(),
                        nums@ == before + found@.take(i as int),
                    decreases found@.len() - i,
                {
                    nums.push(found[i]);
                    i = i + 1;
                    proof {
                        assert(nums@ =~= before + found@.take(i as int));
                    }
                }
                proof {
                    assert(found@.take(found@.len() as int) =~= found@);
                    assert(nums@ + solution_numbers(ls, k + 1) =~= before + solution_numbers(ls, k as int));
                }
                k = k + 1;
            },
            None => {
                done = true;
                proof {
                    assert(nums@ + solution_numbers(ls, k as int) =~= nums@);
                }
            },
        }
    }
    proof {
        if !done {
            assert(nums@ + solution_numbers(ls, k as int) =~= nums@);
        }
    }
    proof {
        g.lemma_sizes();
    }
    let n = g.num_cells();
    let mut cells: Vec<usize> = Vec::new();
    let mut c: usize = 0;
    while c < n
        invariant
            g.wf(),
            n == g.n_cells(),
            c <= n,
            cells@.map_values(|x: usize| x as int) == existing_cells(*g, c as int),
            forall|i: int| 0 <= i < cells@.len() ==> #[trigger] cells@[i] < c,
        decreases n - c,
    {
        if g.cell_exists[c] {
            cells.push(c);
        }
        c = c + 1;
        proof {
            assert(cells@.map_values(|x: usize| x as int) =~= existing_cells(*g, c as int));
        }
    }
    if nums.len() != cells.len() {
        proof {
            assert(existing_cells(*g, g.n_cells()).len() == cells@.len());
        }
        return None;
    }
    proof {
        if g.cols == 0 {
            assert(g.rows * g.cols == 0) by (nonlinear_arith)
                requires
                    g.cols == 0,
            ;
        }
    }
    let mut v: Vec<(usize, Vec<char>)> = Vec::new();
    let mut i: usize = 0;
    while i < cells.len()
        invariant
            g.wf(),
            g.rows < 160,
            n == g.n_cells(),
            i <= cells@.len(),
            nums@.len() == cells@.len(),
            cells@.len() > 0 ==> g.cols > 0,
            forall|x: int| 0 <= x < cells@.len() ==> #[trigger] cells@[x] < n,
            entry_views(v@) == Seq::new(
                i as nat,
                |k: int|
                    (
                        row_key((cells@[k] as int) / (g.cols as int)),
                        seq!['"'] + pos_text(*g, cells@[k] as int) + seq!['"', ':', ' '] + dec(nums@[k] as nat),
                    ),
            ),
        decreases cells@.len() - i,
    {
        let c = cells[i];
        let mut entry: Vec<char> = Vec::new();
        entry.push('"');
        push_pos(&mut entry, g, c);
        entry.push('"');
        entry.push(':');
        entry.push(' ');
        push_dec(&mut entry, nums[i]);
        let (r, _) = g.cell_pos(c);
        let key: usize = if r < 31 {
            r
        } else if r < 95 {
            97
        } else {
            98
        };
        let ghost before = v@;
        v.push((key, entry));
        proof {
            assert(entry@ =~= seq!['"'] + pos_text(*g, c as int) + seq!['"', ':', ' '] + dec(nums@[i as int] as nat));
            assert(r as int == (cells@[i as int] as int) / (g.cols as int));
            assert(key == row_key((cells@[i as int] as int) / (g.cols as int)));
            assert(entry_views(before).len() == i);
            assert(before.len() == i);
            assert(v@ == before.push((key, entry)));
            assert(v@[i as int] == (key, entry));
            assert(entry_views(v@)[i as int] == (key, entry@));
            assert forall|k: int| 0 <= k < i implies #[trigger] entry_views(v@)[k] == entry_views(before)[k] by {
                assert(v@[k] == before[k]);
            }
            assert(entry_views(v@) =~= Seq::new(
                (i + 1) as nat,
                |k: int|
                    (
                        row_key((cells@[k] as int) / (g.cols as int)),
                        seq!['"'] + pos_text(*g, cells@[k] as int) + seq!['"', ':', ' '] + dec(nums@[k] as nat),
                    ),
            ));
        }
        i = i + 1;
    }
    proof {
        let ec = existing_cells(*g, g.n_cells());
        assert(ec.len() == cells@.len());
        assert forall|k: int| 0 <= k < ec.len() implies #[trigger] ec[k] == cells@[k] as int by {
            assert(cells@.map_values(|x: usize| x as int)[k] == cells@[k] as int);
        }
        assert(solution_entries(*g, ls) =~= Some(entry_views(v@)));
    }
    Some(v)
}

// ── The whole output ─────────────────────────────────────────────────────────

/// `  "name": `.
pub open spec fn key_text(name: Seq<char>) -> Seq<char> {
    seq![' ', ' ', '"'] + name + seq!['"', ':', ' ']
}

/// The rules section.
pub open spec fn rules_section(p: Parser) -> Seq<char> {
    key_text(seq!['r', 'u', 'l', 'e', 's']) + array_text(rule_items(p.puzzle.rules)) + seq![',', '\n']
}

/// The cells section.
pub open spec fn cells_section(p: Parser) -> Seq<char> {
    key_text(seq!['c', 'e', 'l', 'l', 's']) + object_text(cell_entries(p.grid, p.puzzle.cell_clues@, p.grid.n_cells()))
        + seq![',', '\n']
}

/// The edges section.
pub open spec fn edges_section(p: Parser) -> Seq<char> {
    key_text(seq!['e', 'd', 'g', 'e', 's']) + object_text(
        edge_entries(p.grid, p.puzzle.edge_clues@, p.pre_cut_edges@, p.grid.n_edges()),
    ) + seq![',', '\n']
}

/// The watchtower section.
pub open spec fn vertices_section(p: Parser) -> Seq<char> {
    key_text(seq!['v', 'e', 'r', 't', 'i', 'c', 'e', 's']) + object_text(
        vertex_entries(p.grid, p.puzzle.vertex_clues@, p.grid.rows as int),
    )
}

/// The solution section, when the input holds a drawn solution.
pub open spec fn solution_section(p: Parser) -> Seq<char> {
    match solution_entries(p.grid, p.lines@.map_values(|l: Vec<u8>| l@)) {
        Some(es) => seq![',', '\n'] + key_text(seq!['s', 'o', 'l', 'u', 't', 'i', 'o', 'n']) + object_text(es) + seq!['\n'],
        None => seq!['\n'],
    }
}

/// The JSON text for a parsed puzzle: its rules, the text of every existing
/// cell, the edges with a clue or cut by the drawing, the watchtower clues,
/// and the drawn solution when the input holds one.
pub open spec fn parse_output_text(p: Parser) -> Seq<char> {
    seq!['{', '\n'] + rules_section(p) + cells_section(p) + edges_section(p) + vertices_section(p) + solution_section(p)
        + seq!['}', '\n']
}

/// Appends `  "name": `.
fn push_key(out: &mut Vec<char>, name: &[char])
    ensures
        final(out)@ == old(out)@ + key_text(name@),
{
    out.push(' ');
    out.push(' ');
    out.push('"');
    push_all(out, name);
    out.push('"');
    out.push(':');
    out.push(' ');
    proof {
        assert(out@ =~= old(out)@ + key_text(name@));
    }
}

/// Appends the rules section.
fn push_rules_section(out: &mut Vec<char>, parser: &Parser)
    requires
        parser.records_ok(),
    ensures
        final(out)@ == old(out)@ + rules_section(*parser),
{
    let rules = rules_exec(&parser.puzzle.rules);
    let name = ['r', 'u', 'l', 'e', 's'];
    push_key(out, &name);
    push_array(out, &rules);
    out.push(',');
    out.push('\n');
    proof {
        assert(name@ == seq!['r', 'u', 'l', 'e', 's']);
        assert(out@ =~= old(out)@ + rules_section(*parser));
    }
}

/// Appends the cells section.
fn push_cells_section(out: &mut Vec<char>, parser: &Parser)
    requires
        parser.grid.wf(),
        parser.grid.rows < 160,
        parser.records_ok(),
    ensures
        final(out)@ == old(out)@ + cells_section(*parser),
{
    let cells = cell_entries_exec(&parser.grid, &parser.puzzle.cell_clues);
    let name = ['c', 'e', 'l', 'l', 's'];
    push_key(out, &name);
    push_object(out, &cells);
    out.push(',');
    out.push('\n');
    proof {
        assert(name@ == seq!['c', 'e', 'l', 'l', 's']);
        assert(out@ =~= old(out)@ + cells_section(*parser));
    }
}

/// Appends the edges section.
fn push_edges_section(out: &mut Vec<char>, parser: &Parser)
    requires
        parser.grid.wf(),
        parser.grid.rows < 160,
    ensures
        final(out)@ == old(out)@ + edges_section(*parser),
{
    let edges = edge_entries_exec(&parser.grid, &parser.puzzle.edge_clues, &parser.pre_cut_edges);
    let name = ['e', 'd', 'g', 'e', 's'];
    push_key(out, &name);
    push_object(out, &edges);
    out.push(',');
    out.push('\n');
    proof {
        assert(name@ == seq!['e', 'd', 'g', 'e', 's']);
        assert(out@ =~= old(out)@ + edges_section(*parser));
    }
}

/// Appends the watchtower section.
fn push_vertices_section(out: &mut Vec<char>, parser: &Parser)
    requires
        parser.grid.wf(),
        parser.grid.rows < 160,
    ensures
        final(out)@ == old(out)@ + vertices_section(*parser),
{
    let vertices = vertex_entries_exec(&parser.grid, &parser.puzzle.vertex_clues);
    let name = ['v', 'e', 'r', 't', 'i', 'c', 'e', 's'];
    push_key(out, &name);
    push_object(out, &vertices);
    proof {
        assert(name@ == seq!['v', 'e', 'r', 't', 'i', 'c', 'e', 's']);
        assert(out@ =~= old(out)@ + vertices_section(*parser));
    }
}

/// Appends the solution section.
fn push_solution_section(out: &mut Vec<char>, parser: &Parser)
    requires
        parser.grid.wf(),
        parser.grid.rows < 160,
    ensures
        final(out)@ == old(out)@ + solution_section(*parser),
{
    match solution_entries_exec(&parser.grid, &parser.lines) {
        Some(sol) => {
            let name = ['s', 'o', 'l', 'u', 't', 'i', 'o', 'n'];
            out.push(',');
            out.push('\n');
            push_key(out, &name);
            push_object(out, &sol);
            out.push('\n');
            proof {
                assert(name@ == seq!['s', 'o', 'l', 'u', 't', 'i', 'o', 'n']);
                assert(out@ =~= old(out)@ + solution_section(*parser));
            }
        },
        None => {
            out.push('\n');
            proof {
                assert(out@ =~= old(out)@ + solution_section(*parser));
            }
        },
    }
}

/// Writes a parsed puzzle as JSON (see `parse_output_text`). The grid has
/// fewer than 160 rows, so that every row has a letter.
pub fn format_parse_output(parser: &Parser) -> (s: String)
    requires
        parser.grid.wf(),
        parser.grid.rows < 160,
        parser.records_ok(),
    ensures
        s@ == parse_output_text(*parser),
{
    let mut out: Vec<char> = Vec::new();
    out.push('{');
    out.push('\n');
    push_rules_section(&mut out, parser);
    push_cells_section(&mut out, parser);
    push_edges_section(&mut out, parser);
    push_vertices_section(&mut out, parser);
    push_solution_section(&mut out, parser);
    out.push('}');
    out.push('\n');
    proof {
        assert(out@ =~= parse_output_text(*parser));
    }
    chars_string(out)
}

} // verus!
