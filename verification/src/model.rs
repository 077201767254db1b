//! The mathematical model of the puzzle: symbols, lines, legality, overlays.
//!
//! A word is a sequence of symbols; a symbol is two bytes packed into one
//! `u16`. The board is a row-major sequence of 16 cells, each holding a
//! symbol, with a reserved sentinel for an unoccupied cell.

use vstd::prelude::*;
use crate::puzzle::Point;

verus! {

/// The sentinel symbol for an unoccupied cell: the two characters `--`.
pub const EMPTY_SYM: u16 = 0x2D2D;

/// The symbol starting at byte `2 * i` of `s`: two consecutive bytes packed
/// big-endian into one `u16`.
pub open spec fn sym_val(s: Seq<u8>, i: int) -> u16 {
    (s[2 * i] * 256 + s[2 * i + 1]) as u16
}

/// The symbol sequence of a byte string (its two-byte chunks, in order).
pub open spec fn syms_of(s: Seq<u8>) -> Seq<u16> {
    Seq::new((s.len() / 2) as nat, |i: int| sym_val(s, i))
}

/// A word is eligible for placement when it has 2 or 3 symbols and none of
/// them is the empty sentinel.
pub open spec fn eligible(w: Seq<u16>) -> bool {
    &&& (w.len() == 2 || w.len() == 3)
    &&& forall|i: int| 0 <= i < w.len() ==> w[i] != EMPTY_SYM
}

/// The alignment variants of a word: the word itself, then one variant per
/// insertion offset `0..=n`, each with the empty symbol inserted there.
pub open spec fn variants_of(w: Seq<u16>) -> Seq<Seq<u16>> {
    seq![w] + Seq::new((w.len() + 1) as nat, |i: int| insert_empty(w, i))
}

/// The word `w` with one empty symbol inserted before offset `i`.
pub open spec fn insert_empty(w: Seq<u16>, i: int) -> Seq<u16> {
    w.subrange(0, i) + seq![EMPTY_SYM] + w.subrange(i, w.len() as int)
}

/// The cell of a row-major 16-cell board at row `r`, column `c`.
pub open spec fn cell(board: Seq<u16>, r: int, c: int) -> u16 {
    board[4 * r + c]
}

/// The visible text of row `k`, using only its first `j` cells: the non-empty
/// symbols in cell order.
pub open spec fn row_line_upto(board: Seq<u16>, k: int, j: int) -> Seq<u16>
    decreases j,
{
    if j <= 0 {
        Seq::empty()
    } else {
        let rest = row_line_upto(board, k, j - 1);
        if cell(board, k, j - 1) == EMPTY_SYM {
            rest
        } else {
            rest.push(cell(board, k, j - 1))
        }
    }
}

/// The visible text of row `k`: its non-empty symbols in cell order.
pub open spec fn row_line(board: Seq<u16>, k: int) -> Seq<u16> {
    row_line_upto(board, k, 4)
}

/// The visible text of column `k`, using only its first `j` cells.
pub open spec fn col_line_upto(board: Seq<u16>, k: int, j: int) -> Seq<u16>
    decreases j,
{
    if j <= 0 {
        Seq::empty()
    } else {
        let rest = col_line_upto(board, k, j - 1);
        if cell(board, j - 1, k) == EMPTY_SYM {
            rest
        } else {
            rest.push(cell(board, j - 1, k))
        }
    }
}

/// The visible text of column `k`: its non-empty symbols in cell order.
pub open spec fn col_line(board: Seq<u16>, k: int) -> Seq<u16> {
    col_line_upto(board, k, 4)
}

/// Entries `2k` and `2k + 1` of `lines` are the visible texts of row `k`
/// and column `k` of `board`.
pub open spec fn line_pair_match(lines: Seq<Vec<u16>>, board: Seq<u16>, k: int) -> bool {
    lines[2 * k]@ == row_line(board, k) && lines[2 * k + 1]@ == col_line(board, k)
}

/// The eight line texts `lines` are exactly the visible lines of `board`,
/// as the pairs (row k, column k) for k in 0..4.
pub open spec fn lines_match(lines: Seq<Vec<u16>>, board: Seq<u16>) -> bool {
    &&& lines.len() == 8
    &&& forall|k: int| 0 <= k < 4 ==> #[trigger] line_pair_match(lines, board, k)
}

/// A line's text breaks the rules when it is longer than one symbol and is
/// either longer than three symbols or absent from the dictionary.
pub open spec fn breaking(dict: Seq<Seq<u16>>, line: Seq<u16>) -> bool {
    line.len() > 1 && (line.len() > 3 || !dict.contains(line))
}

/// Neither the text of row `k` nor the text of column `k` breaks the rules.
pub open spec fn line_pair_legal(board: Seq<u16>, dict: Seq<Seq<u16>>, k: int) -> bool {
    !breaking(dict, row_line(board, k)) && !breaking(dict, col_line(board, k))
}

/// Every one of the eight lines is legal.
pub open spec fn lines_legal(board: Seq<u16>, dict: Seq<Seq<u16>>) -> bool {
    forall|k: int| 0 <= k < 4 ==> #[trigger] line_pair_legal(board, dict, k)
}

/// Row `k` and column `k` each show at least two symbols.
pub open spec fn line_pair_done(board: Seq<u16>, k: int) -> bool {
    row_line(board, k).len() >= 2 && col_line(board, k).len() >= 2
}

/// The puzzle is complete when every line shows at least two symbols.
pub open spec fn complete(board: Seq<u16>) -> bool {
    forall|k: int| 0 <= k < 4 ==> #[trigger] line_pair_done(board, k)
}

/// The index of the last of the first `n` placement points that covers cell
/// `(r, c)`, or `-1` when none does. The last write to a cell wins.
pub open spec fn cover_index(pts: Seq<Point>, n: int, r: int, c: int) -> int
    decreases n,
{
    if n <= 0 {
        -1
    } else if pts[n - 1].x == r && pts[n - 1].y == c {
        n - 1
    } else {
        cover_index(pts, n - 1, r, c)
    }
}

/// How many symbol/point pairs a placement write uses: the shorter of the two
/// sequences.
pub open spec fn pair_count(cs: Seq<u16>, pts: Seq<Point>) -> int {
    if cs.len() <= pts.len() {
        cs.len() as int
    } else {
        pts.len() as int
    }
}

/// The value cell `(r, c)` shows once the first `n` symbols of `cs` are laid
/// over the board at the points `pts`: the covering symbol if any point of
/// the placement hits the cell, else the board's own value.
pub open spec fn overlay_cell_n(
    board: Seq<u16>,
    cs: Seq<u16>,
    pts: Seq<Point>,
    n: int,
    r: int,
    c: int,
) -> u16 {
    let i = cover_index(pts, n, r, c);
    if i >= 0 {
        cs[i]
    } else {
        cell(board, r, c)
    }
}

/// The overlaid value of cell `(r, c)` for the whole placement.
pub open spec fn overlay_cell(
    board: Seq<u16>,
    cs: Seq<u16>,
    pts: Seq<Point>,
    r: int,
    c: int,
) -> u16 {
    overlay_cell_n(board, cs, pts, pair_count(cs, pts), r, c)
}

/// The visible text of row `k` under the overlay, using its first `j` cells.
pub open spec fn overlay_row_upto(
    board: Seq<u16>,
    cs: Seq<u16>,
    pts: Seq<Point>,
    k: int,
    j: int,
) -> Seq<u16>
    decreases j,
{
    if j <= 0 {
        Seq::empty()
    } else {
        let rest = overlay_row_upto(board, cs, pts, k, j - 1);
        if overlay_cell(board, cs, pts, k, j - 1) == EMPTY_SYM {
            rest
        } else {
            rest.push(overlay_cell(board, cs, pts, k, j - 1))
        }
    }
}

/// The visible text of row `k` under the overlay.
pub open spec fn overlay_row_line(board: Seq<u16>, cs: Seq<u16>, pts: Seq<Point>, k: int) -> Seq<
    u16,
> {
    overlay_row_upto(board, cs, pts, k, 4)
}

/// The visible text of column `k` under the overlay, using its first `j`
/// cells.
pub open spec fn overlay_col_upto(
    board: Seq<u16>,
    cs: Seq<u16>,
    pts: Seq<Point>,
    k: int,
    j: int,
) -> Seq<u16>
    decreases j,
{
    if j <= 0 {
        Seq::empty()
    } else {
        let rest = overlay_col_upto(board, cs, pts, k, j - 1);
        if overlay_cell(board, cs, pts, j - 1, k) == EMPTY_SYM {
            rest
        } else {
            rest.push(overlay_cell(board, cs, pts, j - 1, k))
        }
    }
}

/// The visible text of column `k` under the overlay.
pub open spec fn overlay_col_line(board: Seq<u16>, cs: Seq<u16>, pts: Seq<Point>, k: int) -> Seq<
    u16,
> {
    overlay_col_upto(board, cs, pts, k, 4)
}

/// The overlay makes the text of row `k` or of column `k` break the rules.
pub open spec fn overlay_pair_breaking(
    board: Seq<u16>,
    dict: Seq<Seq<u16>>,
    cs: Seq<u16>,
    pts: Seq<Point>,
    k: int,
) -> bool {
    breaking(dict, overlay_row_line(board, cs, pts, k)) || breaking(
        dict,
        overlay_col_line(board, cs, pts, k),
    )
}

/// A placement would disrupt the board when some overlaid line breaks the
/// rules.
pub open spec fn disruptive(
    board: Seq<u16>,
    dict: Seq<Seq<u16>>,
    cs: Seq<u16>,
    pts: Seq<Point>,
) -> bool {
    exists|k: int| 0 <= k < 4 && #[trigger] overlay_pair_breaking(board, dict, cs, pts, k)
}

/// The points run down one column: the row coordinate advances by one per
/// point while the column stays fixed.
pub open spec fn varies_x(pts: Seq<Point>) -> bool {
    forall|j: int|
        0 <= j < pts.len() ==> (#[trigger] pts[j]).x == pts[0].x + j && pts[j].y == pts[0].y
}

/// The points run along one row: the column coordinate advances by one per
/// point while the row stays fixed.
pub open spec fn varies_y(pts: Seq<Point>) -> bool {
    forall|j: int|
        0 <= j < pts.len() ==> (#[trigger] pts[j]).y == pts[0].y + j && pts[j].x == pts[0].x
}

/// Every point lies on the 4x4 grid.
pub open spec fn in_bounds(pts: Seq<Point>) -> bool {
    forall|j: int| 0 <= j < pts.len() ==> (#[trigger] pts[j]).x < 4 && pts[j].y < 4
}

/// A placement is one contiguous in-bounds run along a single orientation.
pub open spec fn run_shape(pts: Seq<Point>) -> bool {
    &&& pts.len() >= 1
    &&& varies_x(pts) || varies_y(pts)
    &&& in_bounds(pts)
}

/// A registry entry is well formed: its key is an eligible word, and its
/// placement is a contiguous in-bounds run with one point per symbol of the
/// variant that was committed (the word's symbols, plus at most one pad).
pub open spec fn entry_wf(word: Seq<u16>, pts: Seq<Point>) -> bool {
    &&& eligible(word)
    &&& run_shape(pts)
    &&& word.len() <= pts.len() <= word.len() + 1
}

/// Some registry entry carries this key.
pub open spec fn reg_has(entries: Seq<(Vec<u16>, Vec<Point>)>, key: Seq<u16>) -> bool {
    exists|m: int| 0 <= m < entries.len() && #[trigger] entries[m].0@ == key
}

/// The first byte of a symbol.
pub open spec fn sym_hi(s: u16) -> u8 {
    (s / 256) as u8
}

/// The second byte of a symbol.
pub open spec fn sym_lo(s: u16) -> u8 {
    (s % 256) as u8
}

/// The rendered bytes of row `i`: its four cells, two bytes each, then a
/// newline.
pub open spec fn render_row(board: Seq<u16>, i: int) -> Seq<u8> {
    seq![
        sym_hi(cell(board, i, 0)),
        sym_lo(cell(board, i, 0)),
        sym_hi(cell(board, i, 1)),
        sym_lo(cell(board, i, 1)),
        sym_hi(cell(board, i, 2)),
        sym_lo(cell(board, i, 2)),
        sym_hi(cell(board, i, 3)),
        sym_lo(cell(board, i, 3)),
        10u8,
    ]
}

/// The rendered bytes of the first `i` rows.
pub open spec fn render_upto(board: Seq<u16>, i: int) -> Seq<u8>
    decreases i,
{
    if i <= 0 {
        Seq::empty()
    } else {
        render_upto(board, i - 1) + render_row(board, i - 1)
    }
}

/// The first index at or after `i` where the symbol occurs, or `-1`.
pub open spec fn first_index_from(w: Seq<u16>, s: u16, i: int) -> int
    decreases w.len() - i,
{
    if i < 0 || i >= w.len() {
        -1
    } else if w[i] == s {
        i
    } else {
        first_index_from(w, s, i + 1)
    }
}

/// The first index at which the symbol occurs in the word, or `-1`.
pub open spec fn first_index(w: Seq<u16>, s: u16) -> int {
    first_index_from(w, s, 0)
}

/// The first registry index at or after `i` whose key is `key`, or `-1`.
pub open spec fn first_key_from(
    entries: Seq<(Vec<u16>, Vec<Point>)>,
    key: Seq<u16>,
    i: int,
) -> int
    decreases entries.len() - i,
{
    if i < 0 || i >= entries.len() {
        -1
    } else if entries[i].0@ == key {
        i
    } else {
        first_key_from(entries, key, i + 1)
    }
}

/// The first registry index whose key is `key`, or `-1`.
pub open spec fn first_key(entries: Seq<(Vec<u16>, Vec<Point>)>, key: Seq<u16>) -> int {
    first_key_from(entries, key, 0)
}

/// The contiguous run of `len` points from `anchor`, advancing along the
/// row axis when `x_oriented`, else along the column axis.
pub open spec fn coords_run(anchor: Point, len: int, x_oriented: bool) -> Seq<Point> {
    Seq::new(
        len as nat,
        |j: int|
            if x_oriented {
                Point { x: (anchor.x + j) as usize, y: anchor.y }
            } else {
                Point { x: anchor.x, y: (anchor.y + j) as usize }
            },
    )
}

/// Where the candidate would lie if it crossed the existing registered word
/// at the shared symbol, perpendicular to it: the registry gives the
/// existing word's anchor and orientation, the two symbol offsets align the
/// crossing cell, and the span is rejected when it would leave the board.
pub open spec fn spec_location(
    entries: Seq<(Vec<u16>, Vec<Point>)>,
    existing: Seq<u16>,
    cand: Seq<u16>,
    intersec: u16,
) -> Option<Seq<Point>> {
    let m = first_key(entries, existing);
    if m < 0 {
        None
    } else {
        let coords = entries[m].1@;
        let start = coords[0];
        let is_x = start.x == coords[coords.len() - 1].x;
        let eo = first_index(existing, intersec);
        let co = first_index(cand, intersec);
        if is_x {
            if start.x >= co && start.y + eo <= 4 && start.x + cand.len() <= 4 {
                Some(
                    coords_run(
                        Point { x: (start.x - co) as usize, y: (start.y + eo) as usize },
                        cand.len() as int,
                        true,
                    ),
                )
            } else {
                None
            }
        } else {
            if start.y >= co && start.x + eo <= 4 && start.y + cand.len() <= 4 {
                Some(
                    coords_run(
                        Point { x: (start.x + eo) as usize, y: (start.y - co) as usize },
                        cand.len() as int,
                        false,
                    ),
                )
            } else {
                None
            }
        }
    }
}

/// The crossing of the candidate variant `v` with the line text `existing`
/// at the shared symbol `s` yields nothing: no placement at all, or only a
/// disruptive one.
pub open spec fn fit_fails(
    board: Seq<u16>,
    dict: Seq<Seq<u16>>,
    entries: Seq<(Vec<u16>, Vec<Point>)>,
    existing: Seq<u16>,
    v: Seq<u16>,
    s: u16,
) -> bool {
    match spec_location(entries, existing, v, s) {
        Some(pts) => disruptive(board, dict, v, pts),
        None => true,
    }
}

/// The first fit found when the variants of `cand` are tried in the order
/// given, from position `k` on: the first variant whose crossing with
/// `existing` at `s` yields a placement that does not disrupt the board.
/// The result is a function of its arguments alone: the same draws against
/// the same state give the same fit.
pub open spec fn spec_try_order(
    board: Seq<u16>,
    dict: Seq<Seq<u16>>,
    entries: Seq<(Vec<u16>, Vec<Point>)>,
    existing: Seq<u16>,
    cand: Seq<u16>,
    s: u16,
    order: Seq<usize>,
    k: int,
) -> Option<(Seq<u16>, Seq<Point>)>
    decreases order.len() - k,
{
    if k < 0 || k >= order.len() {
        None
    } else {
        let v = variants_of(cand)[order[k] as int];
        match spec_location(entries, existing, v, s) {
            Some(pts) => if !disruptive(board, dict, v, pts) {
                Some((v, pts))
            } else {
                spec_try_order(board, dict, entries, existing, cand, s, order, k + 1)
            },
            None => spec_try_order(board, dict, entries, existing, cand, s, order, k + 1),
        }
    }
}

/// The text of line `li` of the board: the lines come as the pairs
/// (row k, column k) for k in 0..4.
pub open spec fn line_at(board: Seq<u16>, li: int) -> Seq<u16> {
    if li % 2 == 0 {
        row_line(board, li / 2)
    } else {
        col_line(board, li / 2)
    }
}

/// When exactly one of the first `n` points covers `(r, c)`, the cover
/// index is that point's index.
pub proof fn lemma_cover_index_unique(pts: Seq<Point>, n: int, r: int, c: int, j: int)
    requires
        0 <= j < n <= pts.len(),
        pts[j].x == r && pts[j].y == c,
        forall|j2: int| 0 <= j2 < n && j2 != j ==> (#[trigger] pts[j2]).x != r || pts[j2].y != c,
    ensures
        cover_index(pts, n, r, c) == j,
    decreases n,
{
    if n - 1 != j {
        lemma_cover_index_unique(pts, n - 1, r, c, j);
    }
}

/// When none of the first `n` points covers `(r, c)`, there is no cover
/// index.
pub proof fn lemma_cover_index_none(pts: Seq<Point>, n: int, r: int, c: int)
    requires
        n <= pts.len(),
        forall|j2: int| 0 <= j2 < n ==> (#[trigger] pts[j2]).x != r || pts[j2].y != c,
    ensures
        cover_index(pts, n, r, c) == -1,
    decreases n,
{
    if n > 0 {
        lemma_cover_index_none(pts, n - 1, r, c);
    }
}

/// The lines of a board seeded with one word along row 1, columns
/// `0..len`: row 1 reads the word, every other row is empty, and each
/// column shows at most the word symbol it crosses.
pub proof fn lemma_seeded_lines(b: Seq<u16>, w: Seq<u16>)
    requires
        b.len() == 16,
        2 <= w.len() <= 3,
        forall|i: int| 0 <= i < w.len() ==> (#[trigger] w[i]) != EMPTY_SYM,
        forall|r: int, c: int|
            0 <= r < 4 && 0 <= c < 4 ==> #[trigger] cell(b, r, c) == (
            if r == 1 && 0 <= c < w.len() {
                w[c]
            } else {
                EMPTY_SYM
            }),
    ensures
        row_line(b, 0) == Seq::<u16>::empty(),
        row_line(b, 2) == Seq::<u16>::empty(),
        row_line(b, 3) == Seq::<u16>::empty(),
        row_line(b, 1) == w,
        forall|c: int|
            0 <= c < 4 ==> #[trigger] col_line(b, c) == (
            if c < w.len() {
                seq![w[c]]
            } else {
                Seq::<u16>::empty()
            }),
{
    assert forall|k: int| k == 0 || k == 2 || k == 3 implies row_line(b, k)
        == Seq::<u16>::empty() by {
        assert(row_line_upto(b, k, 0) == Seq::<u16>::empty());
        assert(row_line_upto(b, k, 1) == Seq::<u16>::empty());
        assert(row_line_upto(b, k, 2) == Seq::<u16>::empty());
        assert(row_line_upto(b, k, 3) == Seq::<u16>::empty());
        assert(row_line_upto(b, k, 4) == Seq::<u16>::empty());
    }
    assert(row_line_upto(b, 1, 0) == Seq::<u16>::empty());
    assert(row_line_upto(b, 1, 1) =~= w.subrange(0, 1));
    assert(row_line_upto(b, 1, 2) =~= w.subrange(0, 2));
    if w.len() == 2 {
        assert(row_line_upto(b, 1, 3) =~= w);
        assert(row_line_upto(b, 1, 4) =~= w);
    } else {
        assert(row_line_upto(b, 1, 3) =~= w.subrange(0, 3));
        assert(row_line_upto(b, 1, 3) =~= w);
        assert(row_line_upto(b, 1, 4) =~= w);
    }
    assert forall|c: int| 0 <= c < 4 implies #[trigger] col_line(b, c) == (
    if c < w.len() {
        seq![w[c]]
    } else {
        Seq::<u16>::empty()
    }) by {
        assert(col_line_upto(b, c, 0) == Seq::<u16>::empty());
        assert(col_line_upto(b, c, 1) == Seq::<u16>::empty());
        if c < w.len() {
            assert(col_line_upto(b, c, 2) =~= seq![w[c]]);
            assert(col_line_upto(b, c, 3) =~= seq![w[c]]);
            assert(col_line_upto(b, c, 4) =~= seq![w[c]]);
        } else {
            assert(col_line_upto(b, c, 2) == Seq::<u16>::empty());
            assert(col_line_upto(b, c, 3) == Seq::<u16>::empty());
            assert(col_line_upto(b, c, 4) == Seq::<u16>::empty());
        }
    }
}

/// Row `k` of a board whose every cell equals the overlay of an older board
/// reads as the overlaid row text, cell prefix by cell prefix.
pub proof fn lemma_overlay_row_upto(
    b0: Seq<u16>,
    b1: Seq<u16>,
    cs: Seq<u16>,
    pts: Seq<Point>,
    k: int,
    j: int,
)
    requires
        0 <= k < 4,
        j <= 4,
        forall|r: int, c: int|
            0 <= r < 4 && 0 <= c < 4 ==> #[trigger] cell(b1, r, c) == overlay_cell(
                b0,
                cs,
                pts,
                r,
                c,
            ),
    ensures
        row_line_upto(b1, k, j) == overlay_row_upto(b0, cs, pts, k, j),
    decreases j,
{
    if j > 0 {
        lemma_overlay_row_upto(b0, b1, cs, pts, k, j - 1);
    }
}

/// Column `k` of a board whose every cell equals the overlay of an older
/// board reads as the overlaid column text, cell prefix by cell prefix.
pub proof fn lemma_overlay_col_upto(
    b0: Seq<u16>,
    b1: Seq<u16>,
    cs: Seq<u16>,
    pts: Seq<Point>,
    k: int,
    j: int,
)
    requires
        0 <= k < 4,
        j <= 4,
        forall|r: int, c: int|
            0 <= r < 4 && 0 <= c < 4 ==> #[trigger] cell(b1, r, c) == overlay_cell(
                b0,
                cs,
                pts,
                r,
                c,
            ),
    ensures
        col_line_upto(b1, k, j) == overlay_col_upto(b0, cs, pts, k, j),
    decreases j,
{
    if j > 0 {
        lemma_overlay_col_upto(b0, b1, cs, pts, k, j - 1);
    }
}

/// After a placement that was checked against the overlay is committed,
/// every line of the new board reads exactly as the overlay said it would.
pub proof fn lemma_overlay_lines(b0: Seq<u16>, b1: Seq<u16>, cs: Seq<u16>, pts: Seq<Point>)
    requires
        forall|r: int, c: int|
            0 <= r < 4 && 0 <= c < 4 ==> #[trigger] cell(b1, r, c) == overlay_cell(
                b0,
                cs,
                pts,
                r,
                c,
            ),
    ensures
        forall|k: int| 0 <= k < 4 ==> #[trigger] row_line(b1, k) == overlay_row_line(b0, cs, pts, k),
        forall|k: int| 0 <= k < 4 ==> #[trigger] col_line(b1, k) == overlay_col_line(b0, cs, pts, k),
{
    assert forall|k: int|
        0 <= k < 4 implies #[trigger] row_line(b1, k) == overlay_row_line(b0, cs, pts, k) by {
        lemma_overlay_row_upto(b0, b1, cs, pts, k, 4);
    }
    assert forall|k: int|
        0 <= k < 4 implies #[trigger] col_line(b1, k) == overlay_col_line(b0, cs, pts, k) by {
        lemma_overlay_col_upto(b0, b1, cs, pts, k, 4);
    }
}

} // verus!
