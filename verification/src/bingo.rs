//! Bingo cards: which words go where, and how the card is drawn.

use vstd::prelude::*;
use rand::seq::SliceRandom;
use crate::text::{
    chars_of, lines, split_lines, string_of, utf8_len, utf8_len_exec,
};

verus! {

/// Rows and columns of a bingo card.
pub const DIMENSIONS: usize = 5;

/// Side of a cell, in pixels.
pub const CELL_SIZE: u32 = 150;

/// Width of the lines between cells, in pixels.
pub const BORDER_WIDTH: u32 = 2;

/// Width in pixels given to each character of the longest line of a cell
/// with `lines` lines.
pub open spec fn spec_multiplier(lines: int) -> int {
    if lines == 2 {
        8
    } else if lines == 3 {
        7
    } else {
        6
    }
}

/// Width in pixels given to each character of the longest line of a cell
/// with `lines` lines: 8 for two lines, 7 for three, 6 otherwise.
pub fn get_multiplier_from_line(lines: usize) -> (m: usize)
    ensures
        m == spec_multiplier(lines as int),
{
    match lines {
        2 => 80 / 10,
        3 => 75 / 10,
        _ => 60 / 10,
    }
}

/// The text size, in points, for a cell of `line_count` lines.
pub open spec fn spec_scale_points(line_count: int) -> int {
    if line_count == 1 {
        25
    } else if line_count == 2 {
        18
    } else if line_count == 3 {
        15
    } else {
        14
    }
}

/// The text size, in points, for a cell holding `text`: 25 for one line,
/// 18 for two, 15 for three, 14 otherwise.
pub fn scale_points(text: &str) -> (p: u32)
    ensures
        p == spec_scale_points(lines(text@).len() as int),
{
    let v = chars_of(text);
    let ls = split_lines(&v);
    match ls.len() {
        1 => 25,
        2 => 18,
        3 => 15,
        _ => 14,
    }
}

// ---------------------------------------------------------------------------
// Filling the card
// ---------------------------------------------------------------------------

/// `rand`'s `SliceRandom::shuffle` with the thread's generator: the contract
/// claims only that the same items come back (as a multiset); their order is
/// left to chance and not stated.
#[verifier::external_body]
fn shuffle_items<T>(items: &mut Vec<T>)
    ensures
        final(items)@.to_multiset() == old(items)@.to_multiset(),
        final(items)@.len() == old(items)@.len(),
{
    items.shuffle(&mut rand::thread_rng());
}

/// Whether `card` is the card laid out from `words`: row `i` holds
/// `words[5 * i .. 5 * i + 5]`, except that the middle cell says `FREE`.
pub open spec fn is_card_of<'a>(card: Seq<Vec<&'a str>>, words: Seq<&'a str>) -> bool {
    &&& card.len() == 5
    &&& forall|i: int| 0 <= i < 5 ==> (#[trigger] card[i])@.len() == 5
    &&& forall|i: int, j: int| 0 <= i < 5 && 0 <= j < 5 && !(i == 2 && j == 2) ==> #[trigger] card[i]@[j] == words[5 * i + j]
    &&& card[2]@[2]@ == "FREE"@
}

/// The card laid out from `words` in their order.
pub fn lay_out_bingo_card<'a>(words: &Vec<&'a str>) -> (card: Vec<Vec<&'a str>>)
    requires
        words.len() >= 25,
    ensures
        is_card_of(card@, words@),
{
    let mut card: Vec<Vec<&'a str>> = Vec::new();
    let mut i: usize = 0;
    while i < 5
        invariant
            i <= 5,
            words.len() >= 25,
            card@.len() == i,
            forall|r: int| 0 <= r < i ==> (#[trigger] card@[r])@.len() == 5,
            forall|r: int, j: int| 0 <= r < i && 0 <= j < 5 ==> #[trigger] card@[r]@[j] == words@[5 * r + j],
        decreases 5 - i,
    {
        let mut row: Vec<&'a str> = Vec::new();
        let mut j: usize = 0;
        while j < 5
            invariant
                i < 5,
                j <= 5,
                words.len() >= 25,
                row@.len() == j,
                forall|jj: int| 0 <= jj < j ==> #[trigger] row@[jj] == words@[5 * i + jj],
            decreases 5 - j,
        {
            row.push(words[i * 5 + j]);
            j = j + 1;
        }
        card.push(row);
        i = i + 1;
    }
    let mut middle = card.remove(2);
    middle.set(2, "FREE");
    card.insert(2, middle);
    proof {
        assert forall|r: int, j: int| 0 <= r < 5 && 0 <= j < 5 && !(r == 2 && j == 2) implies #[trigger] card@[r]@[j] == words@[5 * r + j] by {
        }
    }
    card
}

/// A bingo card from `items`: the items are shuffled and the first
/// twenty-five laid out row by row, with `FREE` in the middle.
pub fn create_bingo_card<'a>(items: Vec<&'a str>) -> (card: Vec<Vec<&'a str>>)
    requires
        items.len() >= 25,
    ensures
        exists|shuffled: Seq<&'a str>| shuffled.to_multiset() == items@.to_multiset() && is_card_of(card@, shuffled),
{
    let mut shuffled = items.clone();
    assert(shuffled@ == items@);
    shuffle_items(&mut shuffled);
    let card = lay_out_bingo_card(&shuffled);
    assert(shuffled@.to_multiset() == items@.to_multiset() && is_card_of(card@, shuffled@));
    card
}

} // verus!

verus! {

// ---------------------------------------------------------------------------
// Drawing the card
// ---------------------------------------------------------------------------

/// The colour a rectangle is filled with.
#[derive(Debug, Clone, Copy, PartialEq, Eq)]
pub enum Paint {
    White,
    Black,
}

/// One step of drawing a bingo card, in the order the steps are taken.
#[derive(Debug)]
pub enum DrawOp {
    /// Fill the `w` by `h` rectangle whose top left pixel is (`x`, `y`).
    Fill { x: u32, y: u32, w: u32, h: u32, paint: Paint },
    /// Write `text` in black at size `points`, its top left at (`left`, `top`).
    Text { left: i32, top: i32, points: u32, text: String },
}

/// A drawing step as plain values: `(0, x, y, w, h, [])` fills white,
/// `(1, x, y, w, h, [])` fills black, `(2, x, y, points, 0, text)` writes.
pub type OpView = (int, int, int, int, int, Seq<char>);

impl View for DrawOp {
    type V = OpView;

    open spec fn view(&self) -> OpView {
        match self {
            DrawOp::Fill { x, y, w, h, paint } => (
                if *paint == Paint::Black { 1int } else { 0int },
                *x as int,
                *y as int,
                *w as int,
                *h as int,
                seq![],
            ),
            DrawOp::Text { left, top, points, text } => (2, *left as int, *top as int, *points as int, 0, text@),
        }
    }
}

pub open spec fn fill(x: int, y: int, w: int, h: int, black: bool) -> OpView {
    (if black { 1int } else { 0int }, x, y, w, h, seq![])
}

pub open spec fn write(x: int, y: int, points: int, text: Seq<char>) -> OpView {
    (2, x, y, points, 0, text)
}

/// Halving that rounds towards zero, as Rust's integer division does.
pub open spec fn half(v: int) -> int {
    if v >= 0 {
        v / 2
    } else {
        -((-v) / 2)
    }
}

/// The largest UTF-8 length among `ls[..n]` (0 when `n` is 0).
pub open spec fn longest_line_bytes(ls: Seq<Seq<char>>, n: int) -> int
    decreases n,
{
    if n <= 0 {
        0
    } else {
        let rest = longest_line_bytes(ls, n - 1);
        if utf8_len(ls[n - 1]) as int >= rest { utf8_len(ls[n - 1]) as int } else { rest }
    }
}

/// The writing steps for a cell whose top left pixel is (`x`, `y`): a cell of
/// several lines is written line by line, twenty pixels apart, shifted left
/// by its longest line; a cell of one line (or none) is written whole,
/// centred on its UTF-8 length.  Both are centred vertically on the number
/// of lines.
pub open spec fn text_ops(cell: Seq<char>, x: int, y: int) -> Seq<OpView> {
    let ls = lines(cell);
    let n = ls.len() as int;
    let points = spec_scale_points(n);
    let oy = half(150 - n * 20);
    if n > 1 {
        let ox = 150 - longest_line_bytes(ls, n) * spec_multiplier(n);
        Seq::new(n as nat, |k: int| write(x + ox, y + oy + k * 20, points, ls[k]))
    } else {
        seq![write(x + half(150 - utf8_len(cell) * 10), y + oy, points, cell)]
    }
}

/// Whether the layout arithmetic for `cell` stays within `i32`: for several
/// lines, twenty pixels per line and the longest line times the multiplier;
/// for one line or none, ten pixels per UTF-8 byte.
pub open spec fn cell_text_fits(cell: Seq<char>) -> bool {
    let ls = lines(cell);
    let n = ls.len() as int;
    if n > 1 {
        n * 20 <= 0x7fff_ffff && longest_line_bytes(ls, n) * spec_multiplier(n) <= 0x7fff_ffff
    } else {
        utf8_len(cell) * 10 <= 0x7fff_ffff
    }
}

/// The steps for the cell in row `i`, column `j`: a white square, its left
/// and top borders in black, then its text.
pub open spec fn cell_ops(i: int, j: int, cell: Seq<char>) -> Seq<OpView> {
    let x = j * 150 + 2;
    let y = i * 150 + 2;
    seq![fill(x, y, 150, 150, false), fill(x, y, 2, 150, true), fill(x, y, 150, 2, true)]
        + text_ops(cell, x, y)
}

/// The steps for the cells of row `i` from column `j` on.
pub open spec fn row_ops(row: Seq<Seq<char>>, i: int, j: int) -> Seq<OpView>
    decreases row.len() - j,
{
    if 0 <= j < row.len() {
        cell_ops(i, j, row[j]) + row_ops(row, i, j + 1)
    } else {
        seq![]
    }
}

/// The steps for the rows of `cells` from row `i` on.
pub open spec fn rows_ops(cells: Seq<Seq<Seq<char>>>, i: int) -> Seq<OpView>
    decreases cells.len() - i,
{
    if 0 <= i < cells.len() {
        row_ops(cells[i], i, 0) + rows_ops(cells, i + 1)
    } else {
        seq![]
    }
}

/// The black frame around the whole card (752 pixels square).
pub open spec fn frame_ops() -> Seq<OpView> {
    seq![
        fill(0, 0, 752, 2, true),
        fill(0, 750, 752, 2, true),
        fill(0, 0, 2, 752, true),
        fill(750, 0, 2, 752, true),
    ]
}

/// The cells of a card as plain character sequences.
pub open spec fn cells_view<'a>(cells: Seq<Vec<&'a str>>) -> Seq<Seq<Seq<char>>> {
    cells.map_values(|row: Vec<&'a str>| row@.map_values(|c: &'a str| c@))
}

/// All the steps that draw a card: the cells row by row, then the frame.
pub open spec fn card_ops(cells: Seq<Seq<Seq<char>>>) -> Seq<OpView> {
    rows_ops(cells, 0) + frame_ops()
}

/// Views of a list of drawing steps.
pub open spec fn ops_view(ops: Seq<DrawOp>) -> Seq<OpView> {
    ops.map_values(|op: DrawOp| op@)
}

fn half_exec(v: i64) -> (h: i64)
    requires
        -1_000_000_000_000 <= v <= 1_000_000_000_000,
    ensures
        h == half(v as int),
{
    if v >= 0 {
        v / 2
    } else {
        -((-v) / 2)
    }
}

/// The writing steps for one cell.
fn text_ops_exec(cell: &str, x: i64, y: i64) -> (ops: Vec<DrawOp>)
    requires
        cell_text_fits(cell@),
        0 <= x <= 1000,
        0 <= y <= 1000,
    ensures
        ops_view(ops@) == text_ops(cell@, x as int, y as int),
{
    let v = chars_of(cell);
    let ls = split_lines(&v);
    let n = ls.len();
    assert(n <= 107_374_182);
    let points: u32 = match n {
        1 => 25,
        2 => 18,
        3 => 15,
        _ => 14,
    };
    let oy = half_exec(150 - (n as i64) * 20);
    assert(oy == 75 - 10 * n);
    let mut ops: Vec<DrawOp> = Vec::new();
    if n > 1 {
        let mut longest: u128 = 0;
        let mut k: usize = 0;
        while k < n
            invariant
                n == ls@.len(),
                n == lines(cell@).len(),
                forall|m: int| 0 <= m < n ==> #[trigger] ls@[m]@ == lines(cell@)[m],
                k <= n,
                longest == longest_line_bytes(lines(cell@), k as int),
            decreases n - k,
        {
            let b = utf8_len_exec(&ls[k]);
            if b >= longest {
                longest = b;
            }
            k = k + 1;
        }
        let mult = get_multiplier_from_line(n) as i64;
        assert(longest * mult <= 0x7fff_ffff);
        assert(longest <= 0x7fff_ffff) by (nonlinear_arith)
            requires
                longest * mult <= 0x7fff_ffff,
                mult >= 6,
        ;
        let ox: i64 = 150 - (longest as i64) * mult;
        let mut k: usize = 0;
        while k < n
            invariant
                n == ls@.len(),
                n == lines(cell@).len(),
                1 < n <= 107_374_182,
                forall|m: int| 0 <= m < n ==> #[trigger] ls@[m]@ == lines(cell@)[m],
                k <= n,
                ox == 150 - longest_line_bytes(lines(cell@), n as int) * spec_multiplier(n as int),
                150 - 0x7fff_ffff <= ox <= 150,
                oy == half(150 - n * 20),
                oy == 75 - 10 * n,
                points == spec_scale_points(n as int),
                0 <= x <= 1000,
                0 <= y <= 1000,
                ops_view(ops@) == text_ops(cell@, x as int, y as int).take(k as int),
            decreases n - k,
        {
            let line = string_of(&ls[k]);
            let tx = x + ox;
            let ty = y + oy + (k as i64) * 20;
            let ghost before = ops@;
            assert((tx as i32) as int == tx as int);
            assert((ty as i32) as int == ty as int);
            let op = DrawOp::Text { left: tx as i32, top: ty as i32, points, text: line };
            assert(op@ == text_ops(cell@, x as int, y as int)[k as int]);
            ops.push(op);
            k = k + 1;
            proof {
                let want = text_ops(cell@, x as int, y as int);
                assert(want.len() == n);
                assert(ops@ == before.push(op));
                assert(ops_view(before) == want.take(k - 1));
                assert(ops_view(before).len() == k - 1);
                assert(before.len() == k - 1);
                assert(ops@.len() == k);
                assert(ops@[k - 1] == op);
                assert forall|idx: int| 0 <= idx < k implies #[trigger] ops_view(ops@)[idx] == want.take(k as int)[idx] by {
                    if idx < k - 1 {
                        assert(ops@[idx] == before[idx]);
                        assert(ops_view(before)[idx] == want.take(k - 1)[idx]);
                    } else {
                        assert(ops@[idx] == op);
                    }
                }
                assert(ops_view(ops@) =~= want.take(k as int));
            }
        }
        assert(text_ops(cell@, x as int, y as int).take(n as int) =~= text_ops(cell@, x as int, y as int));
    } else {
        let b = utf8_len_exec(&v);
        let ox = half_exec(150 - (b as i64) * 10);
        let text = string_of(&v);
        let tx = x + ox;
        let ty = y + oy;
        assert((tx as i32) as int == tx as int);
        assert((ty as i32) as int == ty as int);
        ops.push(DrawOp::Text { left: tx as i32, top: ty as i32, points, text });
        assert(ops_view(ops@) =~= text_ops(cell@, x as int, y as int));
    }
    ops
}

} // verus!

verus! {

proof fn lemma_ops_view_concat(a: Seq<DrawOp>, b: Seq<DrawOp>)
    ensures
        ops_view(a + b) == ops_view(a) + ops_view(b),
{
    assert(ops_view(a + b) =~= ops_view(a) + ops_view(b));
}

/// Appends `more` to `out`.
fn append_ops(out: &mut Vec<DrawOp>, more: Vec<DrawOp>)
    ensures
        ops_view(final(out)@) == ops_view(old(out)@) + ops_view(more@),
{
    let mut more = more;
    let ghost m = more@;
    out.append(&mut more);
    proof {
        lemma_ops_view_concat(old(out)@, m);
    }
}

/// The steps for the cell in row `i`, column `j`.
fn cell_ops_exec(i: usize, j: usize, cell: &str) -> (ops: Vec<DrawOp>)
    requires
        i < 5,
        j < 5,
        cell_text_fits(cell@),
    ensures
        ops_view(ops@) == cell_ops(i as int, j as int, cell@),
{
    let x: u32 = (j as u32) * CELL_SIZE + BORDER_WIDTH;
    let y: u32 = (i as u32) * CELL_SIZE + BORDER_WIDTH;
    let mut ops: Vec<DrawOp> = Vec::new();
    ops.push(DrawOp::Fill { x, y, w: CELL_SIZE, h: CELL_SIZE, paint: Paint::White });
    ops.push(DrawOp::Fill { x, y, w: BORDER_WIDTH, h: CELL_SIZE, paint: Paint::Black });
    ops.push(DrawOp::Fill { x, y, w: CELL_SIZE, h: BORDER_WIDTH, paint: Paint::Black });
    let ghost fills = ops@;
    assert(ops_view(fills) =~= seq![
        fill(x as int, y as int, 150, 150, false),
        fill(x as int, y as int, 2, 150, true),
        fill(x as int, y as int, 150, 2, true),
    ]);
    let texts = text_ops_exec(cell, x as i64, y as i64);
    append_ops(&mut ops, texts);
    ops
}

/// All the steps that draw the card with the given cells, in order: each
/// cell row by row (white square, black left and top border, text), then
/// the black frame around the card.
pub fn bingo_card_drawing(cells: &Vec<Vec<&str>>) -> (ops: Vec<DrawOp>)
    requires
        cells.len() <= 5,
        forall|i: int| 0 <= i < cells.len() ==> (#[trigger] cells@[i])@.len() <= 5,
        forall|i: int, j: int| 0 <= i < cells.len() && 0 <= j < cells@[i]@.len() ==> cell_text_fits((#[trigger] cells@[i]@[j])@),
    ensures
        ops_view(ops@) == card_ops(cells_view(cells@)),
{
    let ghost cv = cells_view(cells@);
    let mut ops: Vec<DrawOp> = Vec::new();
    let mut i: usize = 0;
    while i < cells.len()
        invariant
            cv == cells_view(cells@),
            cells.len() <= 5,
            forall|i: int| 0 <= i < cells.len() ==> (#[trigger] cells@[i])@.len() <= 5,
            forall|i: int, j: int| 0 <= i < cells.len() && 0 <= j < cells@[i]@.len() ==> cell_text_fits((#[trigger] cells@[i]@[j])@),
            i <= cells.len(),
            ops_view(ops@) + rows_ops(cv, i as int) == rows_ops(cv, 0),
        decreases cells.len() - i,
    {
        let row = &cells[i];
        let mut j: usize = 0;
        assert(rows_ops(cv, i as int) == row_ops(cv[i as int], i as int, 0) + rows_ops(cv, i + 1));
        while j < row.len()
            invariant
                cv == cells_view(cells@),
                i < cells.len() <= 5,
                *row == cells@[i as int],
                row@.len() <= 5,
                forall|j: int| 0 <= j < row@.len() ==> cell_text_fits((#[trigger] row@[j])@),
                j <= row.len(),
                cv[i as int] == row@.map_values(|c: &str| c@),
                ops_view(ops@) + row_ops(cv[i as int], i as int, j as int) + rows_ops(cv, i + 1) == rows_ops(cv, 0),
            decreases row.len() - j,
        {
            let more = cell_ops_exec(i, j, row[j]);
            let ghost before = ops_view(ops@);
            assert(cv[i as int][j as int] == row@[j as int]@);
            assert(row_ops(cv[i as int], i as int, j as int) == cell_ops(i as int, j as int, row@[j as int]@)
                + row_ops(cv[i as int], i as int, j + 1));
            append_ops(&mut ops, more);
            assert(ops_view(ops@) + row_ops(cv[i as int], i as int, j + 1) + rows_ops(cv, i + 1)
                =~= before + row_ops(cv[i as int], i as int, j as int) + rows_ops(cv, i + 1));
            j = j + 1;
        }
        assert(row_ops(cv[i as int], i as int, j as int) =~= Seq::<OpView>::empty());
        assert(ops_view(ops@) + rows_ops(cv, i + 1) =~= ops_view(ops@) + row_ops(cv[i as int], i as int, j as int) + rows_ops(cv, i + 1));
        i = i + 1;
    }
    assert(rows_ops(cv, i as int) =~= Seq::<OpView>::empty());
    assert(ops_view(ops@) =~= rows_ops(cv, 0));
    let ghost before = ops_view(ops@);
    let mut frame: Vec<DrawOp> = Vec::new();
    frame.push(DrawOp::Fill { x: 0, y: 0, w: 752, h: 2, paint: Paint::Black });
    frame.push(DrawOp::Fill { x: 0, y: 750, w: 752, h: 2, paint: Paint::Black });
    frame.push(DrawOp::Fill { x: 0, y: 0, w: 2, h: 752, paint: Paint::Black });
    frame.push(DrawOp::Fill { x: 750, y: 0, w: 2, h: 752, paint: Paint::Black });
    assert(ops_view(frame@) =~= frame_ops());
    append_ops(&mut ops, frame);
    ops
}

} // verus!

verus! {

// ---------------------------------------------------------------------------
// Every cell is framed
// ---------------------------------------------------------------------------

/// Whether `ops[k..k + 3]` paints the cell in row `i`, column `j` (top left
/// pixel at (`150 * j + 2`, `150 * i + 2`)) white and then draws its left
/// border and its top border in black.
pub open spec fn framed_cell_at(ops: Seq<OpView>, k: int, i: int, j: int) -> bool {
    let x = 150 * j + 2;
    let y = 150 * i + 2;
    &&& 0 <= k
    &&& k + 3 <= ops.len()
    &&& ops[k] == (0int, x, y, 150int, 150int, Seq::<char>::empty())
    &&& ops[k + 1] == (1int, x, y, 2int, 150int, Seq::<char>::empty())
    &&& ops[k + 2] == (1int, x, y, 150int, 2int, Seq::<char>::empty())
}

proof fn lemma_row_frames_cell(row: Seq<Seq<char>>, i: int, j0: int, j: int)
    requires
        0 <= j0 <= j < row.len(),
    ensures
        exists|k: int| #[trigger] framed_cell_at(row_ops(row, i, j0), k, i, j),
    decreases j - j0,
{
    let ops = row_ops(row, i, j0);
    let head = cell_ops(i, j0, row[j0]);
    assert(ops == head + row_ops(row, i, j0 + 1));
    if j0 == j {
        assert(framed_cell_at(ops, 0, i, j));
    } else {
        lemma_row_frames_cell(row, i, j0 + 1, j);
        let rest = row_ops(row, i, j0 + 1);
        let k = choose|k: int| framed_cell_at(rest, k, i, j);
        assert(framed_cell_at(ops, head.len() + k, i, j));
    }
}

proof fn lemma_rows_frame_cell(cells: Seq<Seq<Seq<char>>>, i0: int, i: int, j: int)
    requires
        0 <= i0 <= i < cells.len(),
        0 <= j < cells[i].len(),
    ensures
        exists|k: int| #[trigger] framed_cell_at(rows_ops(cells, i0), k, i, j),
    decreases i - i0,
{
    let ops = rows_ops(cells, i0);
    let head = row_ops(cells[i0], i0, 0);
    assert(ops == head + rows_ops(cells, i0 + 1));
    if i0 == i {
        lemma_row_frames_cell(cells[i], i, 0, j);
        let k = choose|k: int| framed_cell_at(head, k, i, j);
        assert(framed_cell_at(ops, k, i, j));
    } else {
        lemma_rows_frame_cell(cells, i0 + 1, i, j);
        let rest = rows_ops(cells, i0 + 1);
        let k = choose|k: int| framed_cell_at(rest, k, i, j);
        assert(framed_cell_at(ops, head.len() + k, i, j));
    }
}

/// Every cell of the card, in row `i` and column `j`, is painted white over
/// its 150 by 150 square at (`150 * j + 2`, `150 * i + 2`), and right after
/// that gets its left border (2 by 150) and its top border (150 by 2) in
/// black, so that the grid shows lines between columns and between rows.
pub proof fn law_every_cell_is_framed(cells: Seq<Seq<Seq<char>>>, i: int, j: int)
    requires
        0 <= i < cells.len(),
        0 <= j < cells[i].len(),
    ensures
        exists|k: int| #[trigger] framed_cell_at(card_ops(cells), k, i, j),
{
    lemma_rows_frame_cell(cells, 0, i, j);
    let rows = rows_ops(cells, 0);
    let k = choose|k: int| framed_cell_at(rows, k, i, j);
    assert(framed_cell_at(card_ops(cells), k, i, j));
}

} // verus!
