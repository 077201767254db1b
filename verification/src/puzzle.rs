//! The puzzle state and the operations that grow it: the board, the registry
//! of placed words, the legality checks and the placement search.

use vstd::prelude::*;
use crate::model::{
    breaking, cell, col_line, col_line_upto, complete, cover_index, disruptive, eligible,
    coords_run, entry_wf, first_index, first_index_from, first_key, first_key_from, fit_fails,
    insert_empty, line_at, line_pair_done, line_pair_legal, line_pair_match, spec_location,
    spec_try_order,
    lemma_cover_index_none, lemma_cover_index_unique, lemma_overlay_lines, lemma_seeded_lines,
    lines_legal, lines_match, overlay_cell, overlay_cell_n, overlay_col_line, overlay_col_upto,
    overlay_pair_breaking, overlay_row_line, overlay_row_upto, pair_count, reg_has, render_row,
    render_upto, row_line, row_line_upto, run_shape, sym_val, syms_of, variants_of, varies_x,
    varies_y, EMPTY_SYM,
};

verus! {

/// One cell coordinate: row `x`, column `y`, both in `0..4` when on the
/// board.
#[derive(Copy, Clone, PartialEq, Eq, Hash)]
pub struct Point {
    pub x: usize,
    pub y: usize,
}

/// A puzzle in progress: the 4x4 board (row-major, 16 cells), the registry
/// of placed words with the points each one was committed at, and the
/// dictionary that serves as candidate pool and legality oracle.
pub struct Puzzle {
    placed: Vec<(Vec<u16>, Vec<Point>)>,
    board: Vec<u16>,
    dictionary: Vec<Vec<u16>>,
}

impl Puzzle {
    /// The board as a sequence of 16 cells, row-major.
    pub closed spec fn board_view(&self) -> Seq<u16> {
        self.board@
    }

    /// The dictionary as a sequence of symbol sequences.
    pub closed spec fn dict_view(&self) -> Seq<Seq<u16>> {
        self.dictionary@.map_values(|w: Vec<u16>| w@)
    }

    /// The registry of placed words.
    pub closed spec fn placed_view(&self) -> Seq<(Vec<u16>, Vec<Point>)> {
        self.placed@
    }

    /// Well-formedness: the board has its 16 cells, every registry entry is
    /// an eligible word with a contiguous in-bounds placement, and no word
    /// is registered twice.
    pub closed spec fn wf(&self) -> bool {
        &&& self.board@.len() == 16
        &&& forall|m: int|
            0 <= m < self.placed@.len() ==> entry_wf(
                #[trigger] self.placed@[m].0@,
                self.placed@[m].1@,
            )
        &&& forall|m1: int, m2: int|
            0 <= m1 < m2 < self.placed@.len() ==> #[trigger] self.placed@[m1].0@
                != #[trigger] self.placed@[m2].0@
    }

    /// Splits a byte string into its two-byte symbols, in order.
    pub fn split(word: &Vec<u8>) -> (r: Vec<u16>)
        requires
            word@.len() % 2 == 0,
        ensures
            r@ == syms_of(word@),
    {
        let wl = word.len();
        let n = wl / 2;
        proof {
            assert(2 * (word@.len() as int / 2) == word@.len() as int) by (nonlinear_arith)
                requires
                    word@.len() % 2 == 0,
            ;
        }
        let mut r: Vec<u16> = Vec::new();
        let mut i: usize = 0;
        let mut bi: usize = 0;
        while i < n
            invariant
                wl == word@.len(),
                2 * n == wl,
                i <= n,
                bi == 2 * i,
                r@.len() == i,
                forall|j: int| 0 <= j < i ==> r@[j] == sym_val(word@, j),
            decreases n - i,
        {
            let b0 = word[bi];
            let b1 = word[bi + 1];
            r.push((b0 as u16) * 256 + (b1 as u16));
            i += 1;
            bi += 2;
        }
        proof {
            assert(r@ =~= syms_of(word@));
        }
        r
    }

    /// Decides whether a line's text breaks the rules: longer than one
    /// symbol, and either longer than three symbols or not a dictionary
    /// word.
    pub fn is_breaking(&self, word: &Vec<u16>) -> (r: bool)
        ensures
            r == breaking(self.dict_view(), word@),
    {
        word.len() > 1 && (word.len() > 3 || !self.dict_contains(word))
    }

    /// The eight line texts currently visible on the board, as the pairs
    /// (row k, column k) for k in 0..4.
    pub fn on_board(&self) -> (r: Vec<Vec<u16>>)
        requires
            self.wf(),
        ensures
            lines_match(r@, self.board_view()),
    {
        let mut r: Vec<Vec<u16>> = Vec::new();
        let mut k: usize = 0;
        while k < 4
            invariant
                self.wf(),
                k <= 4,
                r@.len() == 2 * k,
                forall|k2: int|
                    0 <= k2 < k ==> #[trigger] line_pair_match(r@, self.board_view(), k2),
            decreases 4 - k,
        {
            let mut row_word: Vec<u16> = Vec::new();
            let mut col_word: Vec<u16> = Vec::new();
            let mut j: usize = 0;
            while j < 4
                invariant
                    self.wf(),
                    k < 4,
                    j <= 4,
                    row_word@ == row_line_upto(self.board_view(), k as int, j as int),
                    col_word@ == col_line_upto(self.board_view(), k as int, j as int),
                decreases 4 - j,
            {
                let rs = self.board[4 * k + j];
                if rs != EMPTY_SYM {
                    row_word.push(rs);
                }
                let cs = self.board[4 * j + k];
                if cs != EMPTY_SYM {
                    col_word.push(cs);
                }
                proof {
                    assert(cell(self.board_view(), k as int, j as int) == self.board@[4 * k + j]);
                    assert(cell(self.board_view(), j as int, k as int) == self.board@[4 * j + k]);
                }
                j += 1;
            }
            let ghost r0 = r@;
            r.push(row_word);
            r.push(col_word);
            proof {
                let kk = k as int;
                let bv = self.board_view();
                assert(r@.len() == 2 * kk + 2);
                assert forall|k2: int|
                    0 <= k2 < k + 1 implies #[trigger] line_pair_match(r@, bv, k2) by {
                    if k2 < kk {
                        assert(line_pair_match(r0, bv, k2));
                        assert(r@[2 * k2] == r0[2 * k2]);
                        assert(r@[2 * k2 + 1] == r0[2 * k2 + 1]);
                    } else {
                        assert(2 * k2 == r0.len());
                        assert(r@[2 * k2] == row_word);
                        assert(r@[2 * k2 + 1] == col_word);
                    }
                }
            }
            k += 1;
        }
        r
    }

    /// Reports whether the puzzle still has a line showing fewer than two
    /// symbols.
    pub fn not_complete(&self) -> (r: bool)
        requires
            self.wf(),
        ensures
            r == !complete(self.board_view()),
    {
        let lines = self.on_board();
        let mut i: usize = 0;
        while i < 8
            invariant
                self.wf(),
                i <= 8,
                lines_match(lines@, self.board_view()),
                forall|i2: int| 0 <= i2 < i ==> #[trigger] lines@[i2]@.len() >= 2,
            decreases 8 - i,
        {
            if lines[i].len() < 2 {
                proof {
                    let k = i as int / 2;
                    let bv = self.board_view();
                    assert(line_pair_match(lines@, bv, k));
                    if i % 2 == 0 {
                        assert(i as int == 2 * k);
                        assert(!line_pair_done(bv, k));
                    } else {
                        assert(i as int == 2 * k + 1);
                        assert(!line_pair_done(bv, k));
                    }
                }
                return true;
            }
            i += 1;
        }
        proof {
            let bv = self.board_view();
            assert forall|k: int| 0 <= k < 4 implies #[trigger] line_pair_done(bv, k) by {
                assert(line_pair_match(lines@, bv, k));
                assert(lines@[2 * k]@.len() >= 2);
                assert(lines@[2 * k + 1]@.len() >= 2);
            }
        }
        false
    }

    /// Builds the alignment variants of a word: the word itself first, then
    /// one variant per insertion offset `0..=n`, each with the empty symbol
    /// inserted at that offset.
    pub fn make_variants(candidate: &Vec<u16>) -> (r: Vec<Vec<u16>>)
        requires
            candidate@.len() + 2 <= usize::MAX,
        ensures
            r@.len() == variants_of(candidate@).len(),
            r@.len() == candidate@.len() + 2,
            forall|j: int| 0 <= j < r@.len() ==> #[trigger] r@[j]@ == variants_of(candidate@)[j],
    {
        let n = candidate.len();
        let mut r: Vec<Vec<u16>> = Vec::new();
        r.push(copy_word(candidate));
        let mut i: usize = 0;
        while i <= n
            invariant
                n == candidate@.len(),
                n + 2 <= usize::MAX,
                i <= n + 1,
                r@.len() == i + 1,
                r@[0]@ == candidate@,
                forall|j: int|
                    1 <= j < r@.len() ==> #[trigger] r@[j]@ == insert_empty(candidate@, j - 1),
            decreases n + 1 - i,
        {
            let mut v: Vec<u16> = Vec::new();
            let mut j: usize = 0;
            while j < i
                invariant
                    j <= i <= n,
                    n == candidate@.len(),
                    v@ == candidate@.subrange(0, j as int),
                decreases i - j,
            {
                v.push(candidate[j]);
                j += 1;
                proof {
                    assert(v@ =~= candidate@.subrange(0, j as int));
                }
            }
            v.push(EMPTY_SYM);
            let ghost head = v@;
            proof {
                assert(head + candidate@.subrange(i as int, i as int) =~= head);
            }
            let mut j2: usize = i;
            while j2 < n
                invariant
                    i <= n,
                    i <= j2 <= n,
                    n == candidate@.len(),
                    head == candidate@.subrange(0, i as int) + seq![EMPTY_SYM],
                    v@ == head + candidate@.subrange(i as int, j2 as int),
                decreases n - j2,
            {
                v.push(candidate[j2]);
                j2 += 1;
                proof {
                    assert(v@ =~= head + candidate@.subrange(i as int, j2 as int));
                }
            }
            proof {
                assert(v@ =~= insert_empty(candidate@, i as int));
            }
            r.push(v);
            i += 1;
        }
        proof {
            assert(variants_of(candidate@).len() == candidate@.len() + 2);
            assert forall|j: int|
                0 <= j < r@.len() implies #[trigger] r@[j]@ == variants_of(candidate@)[j] by {
                if j == 0 {
                    assert(variants_of(candidate@)[0] == candidate@);
                } else {
                    assert(variants_of(candidate@)[j] == insert_empty(candidate@, j - 1));
                }
            }
        }
        r
    }

    /// Writes each symbol of `word` into the corresponding point of
    /// `points`, in order, stopping early if the two lengths differ. The
    /// empty symbol is written like any other, so it clears the cell it
    /// lands on.
    pub fn place(&mut self, word: &Vec<u16>, points: Vec<Point>)
        requires
            old(self).wf(),
            forall|i: int|
                0 <= i < pair_count(word@, points@) ==> (#[trigger] points@[i]).x < 4
                    && points@[i].y < 4,
        ensures
            final(self).wf(),
            final(self).dict_view() == old(self).dict_view(),
            final(self).placed_view() == old(self).placed_view(),
            forall|r: int, c: int|
                0 <= r < 4 && 0 <= c < 4 ==> #[trigger] cell(final(self).board_view(), r, c)
                    == overlay_cell(old(self).board_view(), word@, points@, r, c),
    {
        let n = if word.len() <= points.len() {
            word.len()
        } else {
            points.len()
        };
        let mut i: usize = 0;
        while i < n
            invariant
                self.board@.len() == 16,
                self.placed == old(self).placed,
                self.dictionary == old(self).dictionary,
                n == pair_count(word@, points@),
                n <= word@.len(),
                n <= points@.len(),
                i <= n,
                forall|i2: int|
                    0 <= i2 < n ==> (#[trigger] points@[i2]).x < 4 && points@[i2].y < 4,
                forall|r: int, c: int|
                    0 <= r < 4 && 0 <= c < 4 ==> #[trigger] cell(self.board@, r, c)
                        == overlay_cell_n(old(self).board@, word@, points@, i as int, r, c),
            decreases n - i,
        {
            let p = points[i];
            let ghost prev = self.board@;
            self.board[4 * p.x + p.y] = word[i];
            proof {
                assert forall|r: int, c: int|
                    0 <= r < 4 && 0 <= c < 4 implies #[trigger] cell(self.board@, r, c)
                    == overlay_cell_n(old(self).board@, word@, points@, i + 1, r, c) by {
                    assert(cover_index(points@, i + 1, r, c) == if points@[i as int].x == r
                        && points@[i as int].y == c {
                        i as int
                    } else {
                        cover_index(points@, i as int, r, c)
                    });
                    if p.x == r && p.y == c {
                        assert(cell(self.board@, r, c) == word@[i as int]);
                    } else {
                        assert(4 * r + c != 4 * p.x + p.y);
                        assert(cell(self.board@, r, c) == cell(prev, r, c));
                    }
                }
            }
            i += 1;
        }
    }

    /// Decides whether a candidate span would leave the 4x4 grid: the
    /// anchor would move before the start of its axis, or the crossing cell
    /// or the span's end would move past its end.
    fn overflows(
        existing: &Point,
        existing_offset: usize,
        cand_offset: usize,
        cand_len: usize,
        x_oriented: bool,
    ) -> (r: bool)
        requires
            existing.x < 4,
            existing.y < 4,
            existing_offset <= 4,
            cand_offset <= 4,
            cand_len <= 4,
        ensures
            x_oriented ==> r == (existing.x < cand_offset || existing.y + existing_offset > 4
                || existing.x + cand_len > 4),
            !x_oriented ==> r == (existing.y < cand_offset || existing.x + existing_offset > 4
                || existing.y + cand_len > 4),
    {
        if x_oriented {
            existing.x < cand_offset || existing.y + existing_offset > 4 || existing.x + cand_len
                > 4
        } else {
            existing.y < cand_offset || existing.x + existing_offset > 4 || existing.y + cand_len
                > 4
        }
    }

    /// Enumerates the cells of a placement: one point per symbol, advancing
    /// along one axis from the anchor.
    fn gen_coords(anchor: Point, cand_len: usize, x_oriented: bool) -> (r: Vec<Point>)
        requires
            1 <= cand_len <= 4,
            anchor.x <= 4,
            anchor.y <= 4,
        ensures
            r@.len() == cand_len,
            r@[0] == anchor,
            x_oriented ==> varies_x(r@),
            !x_oriented ==> varies_y(r@),
            r@ == coords_run(anchor, cand_len as int, x_oriented),
    {
        let mut r: Vec<Point> = Vec::new();
        r.push(anchor);
        let mut i: usize = 1;
        while i < cand_len
            invariant
                1 <= i <= cand_len,
                cand_len <= 4,
                anchor.x <= 4,
                anchor.y <= 4,
                r@.len() == i,
                r@[0] == anchor,
                forall|j: int|
                    0 <= j < i ==> (#[trigger] r@[j]).x == anchor.x + (
                    if x_oriented {
                        j
                    } else {
                        0
                    }) && r@[j].y == anchor.y + (
                    if x_oriented {
                        0
                    } else {
                        j
                    }),
            decreases cand_len - i,
        {
            if x_oriented {
                r.push(Point { x: anchor.x + i, y: anchor.y });
            } else {
                r.push(Point { x: anchor.x, y: anchor.y + i });
            }
            i += 1;
        }
        proof {
            assert(r@ =~= coords_run(anchor, cand_len as int, x_oriented));
        }
        r
    }

    /// Looks the word up in the dictionary.
    fn dict_contains(&self, w: &Vec<u16>) -> (r: bool)
        ensures
            r == self.dict_view().contains(w@),
    {
        let mut m: usize = 0;
        while m < self.dictionary.len()
            invariant
                m <= self.dictionary@.len(),
                forall|m2: int| 0 <= m2 < m ==> #[trigger] self.dictionary@[m2]@ != w@,
            decreases self.dictionary@.len() - m,
        {
            if syms_eq(&self.dictionary[m], w) {
                proof {
                    assert(self.dict_view()[m as int] == w@);
                }
                return true;
            }
            m += 1;
        }
        proof {
            assert forall|m2: int| 0 <= m2 < self.dict_view().len() implies self.dict_view()[m2]
                != w@ by {
                assert(self.dictionary@[m2]@ != w@);
            }
        }
        false
    }
}

impl Puzzle {
    /// The puzzle holds exactly one placed word `w`, written along row 1
    /// from column 0, on an otherwise empty board.
    pub closed spec fn seeded_with(&self, w: Seq<u16>) -> bool {
        &&& self.placed@.len() == 1
        &&& self.placed@[0].0@ == w
        &&& forall|r: int, c: int|
            0 <= r < 4 && 0 <= c < 4 ==> #[trigger] cell(self.board@, r, c) == (
            if r == 1 && 0 <= c < w.len() {
                w[c]
            } else {
                EMPTY_SYM
            })
    }

    /// Creates a puzzle over the given candidate pool and seeds it with one
    /// randomly chosen word. Every line of the seeded board is legal, and
    /// the puzzle is not yet complete.
    pub fn new(candidates: &Vec<Vec<u16>>) -> (r: Puzzle)
        requires
            candidates@.len() > 0,
            forall|i: int| 0 <= i < candidates@.len() ==> eligible(#[trigger] candidates@[i]@),
        ensures
            r.wf(),
            r.dict_view() == candidates@.map_values(|w: Vec<u16>| w@),
            exists|i: int| 0 <= i < candidates@.len() && r.seeded_with(#[trigger] candidates@[i]@),
            lines_legal(r.board_view(), r.dict_view()),
            !complete(r.board_view()),
    {
        let mut board: Vec<u16> = Vec::new();
        let mut bi: usize = 0;
        while bi < 16
            invariant
                board@.len() == bi,
                bi <= 16,
                forall|r: int, c: int|
                    0 <= r < 4 && 0 <= c < 4 && 4 * r + c < bi ==> #[trigger] cell(board@, r, c)
                        == EMPTY_SYM,
            decreases 16 - bi,
        {
            let ghost b0 = board@;
            board.push(EMPTY_SYM);
            proof {
                assert forall|r: int, c: int|
                    0 <= r < 4 && 0 <= c < 4 && 4 * r + c < bi + 1 implies #[trigger] cell(
                    board@,
                    r,
                    c,
                ) == EMPTY_SYM by {
                    if 4 * r + c < bi {
                        assert(board@[4 * r + c] == b0[4 * r + c]);
                        assert(cell(b0, r, c) == EMPTY_SYM);
                    } else {
                        assert(board@[4 * r + c] == EMPTY_SYM);
                    }
                }
            }
            bi += 1;
        }
        let mut dictionary: Vec<Vec<u16>> = Vec::new();
        let mut di: usize = 0;
        while di < candidates.len()
            invariant
                di <= candidates@.len(),
                dictionary@.len() == di,
                forall|i: int| 0 <= i < di ==> #[trigger] dictionary@[i]@ == candidates@[i]@,
            decreases candidates@.len() - di,
        {
            dictionary.push(copy_word(&candidates[di]));
            di += 1;
        }
        let mut puzzle = Puzzle { placed: Vec::new(), board, dictionary };
        proof {
            assert(puzzle.dict_view() =~= candidates@.map_values(|w: Vec<u16>| w@));
            assert(puzzle.wf());
        }
        let word = Self::select_any(candidates);
        let ghost wi = choose|i: int|
            0 <= i < candidates@.len() && word@ == #[trigger] candidates@[i]@;
        puzzle.start(&word);
        proof {
            let bv = puzzle.board_view();
            let dv = puzzle.dict_view();
            lemma_seeded_lines(bv, word@);
            assert forall|k: int| 0 <= k < 4 implies #[trigger] line_pair_legal(bv, dv, k) by {
                if k == 1 {
                    assert(row_line(bv, 1) == word@);
                    assert(dv[wi] == word@);
                    assert(dv.contains(word@));
                } else {
                    assert(row_line(bv, k) == Seq::<u16>::empty());
                }
                assert(col_line(bv, k).len() <= 1);
            }
            assert(row_line(bv, 0).len() == 0);
            assert(!line_pair_done(bv, 0));
            assert(!complete(bv));
            assert(puzzle.seeded_with(candidates@[wi]@));
        }
        puzzle
    }

    /// Picks one word from the candidate pool at random.
    pub fn select_any(candidates: &Vec<Vec<u16>>) -> (w: Vec<u16>)
        requires
            candidates@.len() > 0,
        ensures
            exists|i: int| 0 <= i < candidates@.len() && w@ == #[trigger] candidates@[i]@,
    {
        let i = crate::rng::pick_index(candidates.len());
        copy_word(&candidates[i])
    }

    /// Seeds the empty board with one word along row 1 from column 0 and
    /// records it in the registry.
    fn start(&mut self, word: &Vec<u16>)
        requires
            old(self).wf(),
            old(self).placed@.len() == 0,
            eligible(word@),
            forall|r: int, c: int|
                0 <= r < 4 && 0 <= c < 4 ==> #[trigger] cell(old(self).board@, r, c) == EMPTY_SYM,
        ensures
            final(self).wf(),
            final(self).dict_view() == old(self).dict_view(),
            final(self).seeded_with(word@),
    {
        let coords = Self::gen_coords(Point { x: 1, y: 0 }, word.len(), false);
        let pts2 = copy_points(&coords);
        proof {
            assert forall|j: int| 0 <= j < coords@.len() implies (#[trigger] coords@[j]).x == 1
                && coords@[j].y == j by {
                assert(coords@[j].y == coords@[0].y + j && coords@[j].x == coords@[0].x);
            }
            assert(entry_wf(word@, coords@));
        }
        self.placed.push((copy_word(word), coords));
        self.place(word, pts2);
        proof {
            let w = word@;
            let pts = pts2@;
            let b0 = old(self).board@;
            let n = pair_count(w, pts);
            assert(n == w.len());
            assert forall|r: int, c: int| 0 <= r < 4 && 0 <= c < 4 implies #[trigger] cell(
                self.board@,
                r,
                c,
            ) == (
            if r == 1 && 0 <= c < w.len() {
                w[c]
            } else {
                EMPTY_SYM
            }) by {
                assert(cell(self.board_view(), r, c) == overlay_cell(b0, w, pts, r, c));
                if r == 1 && 0 <= c < w.len() {
                    lemma_cover_index_unique(pts, n, r, c, c);
                    assert(overlay_cell(b0, w, pts, r, c) == w[c]);
                } else {
                    lemma_cover_index_none(pts, n, r, c);
                    assert(overlay_cell(b0, w, pts, r, c) == cell(b0, r, c));
                }
            }
        }
    }

    /// Commits a fit: writes the variant's symbols at the given points and
    /// records the word's placement in the registry.
    pub fn update(&mut self, word: &Vec<u16>, variant: &Vec<u16>, points: Vec<Point>)
        requires
            old(self).wf(),
            eligible(word@),
            variants_of(word@).contains(variant@),
            run_shape(points@),
            points@.len() == variant@.len(),
        ensures
            final(self).wf(),
            final(self).dict_view() == old(self).dict_view(),
            forall|r: int, c: int|
                0 <= r < 4 && 0 <= c < 4 ==> #[trigger] cell(final(self).board_view(), r, c)
                    == overlay_cell(old(self).board_view(), variant@, points@, r, c),
            reg_has(final(self).placed_view(), word@),
            forall|m: int|
                0 <= m < final(self).placed_view().len() ==> ((#[trigger] final(self).placed_view()[m]).0@
                    == word@ && final(self).placed_view()[m].1@ == points@) || old(
                    self,
                ).placed_view().contains(final(self).placed_view()[m]),
            forall|m: int|
                0 <= m < old(self).placed_view().len() && (#[trigger] old(self).placed_view()[m]).0@
                    != word@ ==> final(self).placed_view().contains(old(self).placed_view()[m]),
    {
        proof {
            let vs = variants_of(word@);
            let j = choose|j: int| 0 <= j < vs.len() && vs[j] == variant@;
            if j == 0 {
                assert(variant@.len() == word@.len());
            } else {
                assert(vs[j] == insert_empty(word@, j - 1));
                assert(variant@.len() == word@.len() + 1);
            }
            assert(entry_wf(word@, points@));
        }
        let pts2 = copy_points(&points);
        self.place(variant, pts2);
        let ghost mid = *self;
        proof {
            assert(forall|r: int, c: int|
                0 <= r < 4 && 0 <= c < 4 ==> #[trigger] cell(mid.board_view(), r, c)
                    == overlay_cell(old(self).board_view(), variant@, pts2@, r, c));
        }
        let found = self.reg_index_of(word);
        match found {
            Some(m) => {
                let ghost before = self.placed@;
                let entry = self.placed.remove(m);
                self.placed.push((entry.0, points));
                proof {
                    before.remove_ensures(m as int);
                    let now = self.placed@;
                    assert(now.len() == before.len());
                    assert(now[now.len() - 1].0@ == word@);
                    assert(reg_has(now, word@));
                    assert forall|m2: int|
                        0 <= m2 < now.len() implies (#[trigger] now[m2]).0@ == word@
                        && now[m2].1@ == points@ || before.contains(now[m2]) by {
                        if m2 < now.len() - 1 {
                            if m2 < m {
                                assert(now[m2] == before[m2]);
                            } else {
                                assert(now[m2] == before[m2 + 1]);
                            }
                        }
                    }
                    assert forall|m2: int|
                        0 <= m2 < before.len() && (#[trigger] before[m2]).0@ != word@
                        implies now.contains(before[m2]) by {
                        if m2 < m {
                            assert(now[m2] == before[m2]);
                        } else {
                            assert(m2 != m);
                            assert(now[m2 - 1] == before[m2]);
                        }
                    }
                    assert forall|m1: int, m2: int|
                        0 <= m1 < m2 < now.len() implies (#[trigger] now[m1]).0@ != (
                        #[trigger] now[m2]).0@ by {
                        let o1 = if m1 < m {
                            m1
                        } else {
                            m1 + 1
                        };
                        if m2 == now.len() - 1 {
                            assert(now[m1] == before[o1]);
                            assert(before[o1].0@ != before[m as int].0@);
                        } else {
                            let o2 = if m2 < m {
                                m2
                            } else {
                                m2 + 1
                            };
                            assert(now[m1] == before[o1]);
                            assert(now[m2] == before[o2]);
                        }
                    }
                    assert forall|m2: int|
                        0 <= m2 < now.len() implies entry_wf(
                        (#[trigger] now[m2]).0@,
                        now[m2].1@,
                    ) by {
                        if m2 < now.len() - 1 {
                            let o2 = if m2 < m {
                                m2
                            } else {
                                m2 + 1
                            };
                            assert(now[m2] == before[o2]);
                            assert(entry_wf(before[o2].0@, before[o2].1@));
                        }
                    }
                }
            },
            None => {
                let ghost before = self.placed@;
                self.placed.push((copy_word(word), points));
                proof {
                    let now = self.placed@;
                    assert(now[now.len() - 1].0@ == word@);
                    assert(reg_has(now, word@));
                    assert forall|m2: int|
                        0 <= m2 < before.len() implies now.contains(#[trigger] before[m2]) by {
                        assert(now[m2] == before[m2]);
                    }
                    assert forall|m1: int, m2: int|
                        0 <= m1 < m2 < now.len() implies (#[trigger] now[m1]).0@ != (
                        #[trigger] now[m2]).0@ by {
                        if m2 == now.len() - 1 {
                            assert(now[m1] == before[m1]);
                            assert(before[m1].0@ != word@);
                        }
                    }
                }
            },
        }
        proof {
            assert(self.board@ == mid.board@);
            assert forall|r: int, c: int| 0 <= r < 4 && 0 <= c < 4 implies #[trigger] cell(
                self.board_view(),
                r,
                c,
            ) == overlay_cell(old(self).board_view(), variant@, points@, r, c) by {
                assert(cell(mid.board_view(), r, c) == overlay_cell(
                    old(self).board_view(),
                    variant@,
                    pts2@,
                    r,
                    c,
                ));
                assert(pts2@ == points@);
            }
        }
    }

    /// Tests whether laying the candidate's symbols over the board at the
    /// given points would make any row or column break the rules. The board
    /// itself is not changed.
    pub fn is_disruptive(&self, cand: &Vec<u16>, coords: &Vec<Point>) -> (r: bool)
        requires
            self.wf(),
        ensures
            r == disruptive(self.board_view(), self.dict_view(), cand@, coords@),
    {
        let mut k: usize = 0;
        while k < 4
            invariant
                self.wf(),
                k <= 4,
                forall|k2: int|
                    0 <= k2 < k ==> !(#[trigger] overlay_pair_breaking(
                        self.board_view(),
                        self.dict_view(),
                        cand@,
                        coords@,
                        k2,
                    )),
            decreases 4 - k,
        {
            let mut row_word: Vec<u16> = Vec::new();
            let mut col_word: Vec<u16> = Vec::new();
            let mut j: usize = 0;
            while j < 4
                invariant
                    self.wf(),
                    k < 4,
                    j <= 4,
                    row_word@ == overlay_row_upto(
                        self.board_view(),
                        cand@,
                        coords@,
                        k as int,
                        j as int,
                    ),
                    col_word@ == overlay_col_upto(
                        self.board_view(),
                        cand@,
                        coords@,
                        k as int,
                        j as int,
                    ),
                decreases 4 - j,
            {
                let rs = self.overlay_at(cand, coords, k, j);
                if rs != EMPTY_SYM {
                    row_word.push(rs);
                }
                let cs2 = self.overlay_at(cand, coords, j, k);
                if cs2 != EMPTY_SYM {
                    col_word.push(cs2);
                }
                j += 1;
            }
            if self.is_breaking(&row_word) || self.is_breaking(&col_word) {
                proof {
                    assert(overlay_pair_breaking(
                        self.board_view(),
                        self.dict_view(),
                        cand@,
                        coords@,
                        k as int,
                    ));
                }
                return true;
            }
            k += 1;
        }
        false
    }

    /// The symbol cell `(r, c)` would show under the hypothetical
    /// placement: the candidate's covering symbol if one of its points hits
    /// the cell, else the board's current value.
    fn overlay_at(&self, cand: &Vec<u16>, coords: &Vec<Point>, r: usize, c: usize) -> (s: u16)
        requires
            self.wf(),
            r < 4,
            c < 4,
        ensures
            s == overlay_cell(self.board_view(), cand@, coords@, r as int, c as int),
    {
        let n = if cand.len() <= coords.len() {
            cand.len()
        } else {
            coords.len()
        };
        let mut i: usize = n;
        while i > 0
            invariant
                n == pair_count(cand@, coords@),
                n <= cand@.len(),
                n <= coords@.len(),
                i <= n,
                cover_index(coords@, n as int, r as int, c as int) == cover_index(
                    coords@,
                    i as int,
                    r as int,
                    c as int,
                ),
            decreases i,
        {
            i -= 1;
            let p = coords[i];
            if p.x == r && p.y == c {
                proof {
                    assert(cover_index(coords@, i + 1, r as int, c as int) == i as int);
                }
                return cand[i];
            }
            proof {
                assert(cover_index(coords@, i + 1, r as int, c as int) == cover_index(
                    coords@,
                    i as int,
                    r as int,
                    c as int,
                ));
            }
        }
        proof {
            assert(cover_index(coords@, 0, r as int, c as int) == -1);
        }
        self.board[4 * r + c]
    }

    /// Searches for a legal perpendicular placement of `candidate` that
    /// crosses a word already on the board through a shared symbol. The
    /// variants are tried in a random order; the first fit found wins. Any
    /// fit returned lies on the board and would not disrupt it.
    pub fn find_fit(&self, candidate: &Vec<u16>, variants: &Vec<Vec<u16>>) -> (r: Option<
        (Vec<u16>, Vec<Point>),
    >)
        requires
            self.wf(),
            eligible(candidate@),
            variants@.len() == variants_of(candidate@).len(),
            forall|j: int|
                0 <= j < variants@.len() ==> (#[trigger] variants@[j])@ == variants_of(
                    candidate@,
                )[j],
        ensures
            match r {
                Some(fit) => {
                    &&& variants_of(candidate@).contains(fit.0@)
                    &&& run_shape(fit.1@)
                    &&& fit.1@.len() == fit.0@.len()
                    &&& !disruptive(self.board_view(), self.dict_view(), fit.0@, fit.1@)
                    &&& exists|li: int, s: u16|
                        0 <= li < 8 && line_at(self.board_view(), li) != candidate@
                            && candidate@.contains(s) && line_at(self.board_view(), li).contains(
                            s,
                        ) && #[trigger] spec_location(
                            self.placed_view(),
                            line_at(self.board_view(), li),
                            fit.0@,
                            s,
                        ) == Some(fit.1@)
                },
                None => forall|li: int, s: u16, j: int|
                    0 <= li < 8 && line_at(self.board_view(), li) != candidate@
                        && candidate@.contains(s) && line_at(self.board_view(), li).contains(s)
                        && 0 <= j < variants_of(candidate@).len() ==> #[trigger] fit_fails(
                        self.board_view(),
                        self.dict_view(),
                        self.placed_view(),
                        line_at(self.board_view(), li),
                        variants_of(candidate@)[j],
                        s,
                    ),
            },
    {
        let lines = self.on_board();
        let mut e: usize = 0;
        while e < lines.len()
            invariant
                self.wf(),
                eligible(candidate@),
                variants@.len() == variants_of(candidate@).len(),
                forall|j: int|
                    0 <= j < variants@.len() ==> (#[trigger] variants@[j])@ == variants_of(
                        candidate@,
                    )[j],
                lines_match(lines@, self.board_view()),
                e <= lines@.len(),
                forall|li: int, s: u16, j: int|
                    0 <= li < e && line_at(self.board_view(), li) != candidate@
                        && candidate@.contains(s) && line_at(self.board_view(), li).contains(s)
                        && 0 <= j < variants_of(candidate@).len() ==> #[trigger] fit_fails(
                        self.board_view(),
                        self.dict_view(),
                        self.placed_view(),
                        line_at(self.board_view(), li),
                        variants_of(candidate@)[j],
                        s,
                    ),
            decreases lines@.len() - e,
        {
            proof {
                let k = e as int / 2;
                assert(line_pair_match(lines@, self.board_view(), k));
                if e % 2 == 0 {
                    assert(e as int == 2 * k);
                    assert(lines@[e as int]@ == line_at(self.board_view(), e as int));
                } else {
                    assert(e as int == 2 * k + 1);
                    assert(lines@[e as int]@ == line_at(self.board_view(), e as int));
                }
            }
            if !syms_eq(&lines[e], candidate) {
                let mut si: usize = 0;
                while si < candidate.len()
                    invariant
                        self.wf(),
                        eligible(candidate@),
                        variants@.len() == variants_of(candidate@).len(),
                        forall|j: int|
                            0 <= j < variants@.len() ==> (#[trigger] variants@[j])@ == variants_of(
                                candidate@,
                            )[j],
                        lines_match(lines@, self.board_view()),
                        e < lines@.len(),
                        lines@[e as int]@ == line_at(self.board_view(), e as int),
                        lines@[e as int]@ != candidate@,
                        si <= candidate@.len(),
                        forall|s: u16, j: int|
                            (exists|ix: int| 0 <= ix < si && candidate@[ix] == s) && line_at(
                                self.board_view(),
                                e as int,
                            ).contains(s) && 0 <= j < variants_of(candidate@).len()
                                ==> #[trigger] fit_fails(
                                self.board_view(),
                                self.dict_view(),
                                self.placed_view(),
                                line_at(self.board_view(), e as int),
                                variants_of(candidate@)[j],
                                s,
                            ),
                    decreases candidate@.len() - si,
                {
                    let sym = candidate[si];
                    if contains_sym(&lines[e], sym) {
                        match self.try_variants(&lines[e], candidate, variants, sym) {
                            Some(fit) => {
                                proof {
                                    assert(candidate@[si as int] == sym);
                                    assert(candidate@.contains(sym));
                                    assert(spec_location(
                                        self.placed_view(),
                                        line_at(self.board_view(), e as int),
                                        fit.0@,
                                        sym,
                                    ) == Some(fit.1@));
                                }
                                return Some(fit);
                            },
                            None => {
                                proof {
                                    assert forall|j: int|
                                        0 <= j < variants_of(candidate@).len()
                                            implies #[trigger] fit_fails(
                                        self.board_view(),
                                        self.dict_view(),
                                        self.placed_view(),
                                        line_at(self.board_view(), e as int),
                                        variants_of(candidate@)[j],
                                        sym,
                                    ) by {
                                        assert(fit_fails(
                                            self.board_view(),
                                            self.dict_view(),
                                            self.placed_view(),
                                            lines@[e as int]@,
                                            variants_of(candidate@)[j],
                                            sym,
                                        ));
                                    }
                                }
                            },
                        }
                    }
                    si += 1;
                }
                proof {
                    assert forall|s: u16, j: int|
                        line_at(self.board_view(), e as int) != candidate@ && candidate@.contains(
                            s,
                        ) && line_at(self.board_view(), e as int).contains(s) && 0 <= j
                            < variants_of(candidate@).len() implies #[trigger] fit_fails(
                        self.board_view(),
                        self.dict_view(),
                        self.placed_view(),
                        line_at(self.board_view(), e as int),
                        variants_of(candidate@)[j],
                        s,
                    ) by {
                        let ix = choose|ix: int| 0 <= ix < candidate@.len() && candidate@[ix] == s;
                        assert(exists|ix2: int| 0 <= ix2 < si && candidate@[ix2] == s);
                    }
                }
            }
            e += 1;
        }
        None
    }

    /// Tries every variant of the candidate, in a random order, against one
    /// existing line and one shared symbol, and returns the first placement
    /// that stays on the board and does not disrupt it.
    fn try_variants(
        &self,
        existing: &Vec<u16>,
        candidate: &Vec<u16>,
        variants: &Vec<Vec<u16>>,
        sym: u16,
    ) -> (r: Option<(Vec<u16>, Vec<Point>)>)
        requires
            self.wf(),
            eligible(candidate@),
            candidate@.contains(sym),
            existing@.contains(sym),
            variants@.len() == variants_of(candidate@).len(),
            forall|j: int|
                0 <= j < variants@.len() ==> (#[trigger] variants@[j])@ == variants_of(
                    candidate@,
                )[j],
        ensures
            match r {
                Some(fit) => {
                    &&& variants_of(candidate@).contains(fit.0@)
                    &&& run_shape(fit.1@)
                    &&& fit.1@.len() == fit.0@.len()
                    &&& !disruptive(self.board_view(), self.dict_view(), fit.0@, fit.1@)
                    &&& spec_location(self.placed_view(), existing@, fit.0@, sym) == Some(fit.1@)
                },
                None => forall|j: int|
                    0 <= j < variants_of(candidate@).len() ==> #[trigger] fit_fails(
                        self.board_view(),
                        self.dict_view(),
                        self.placed_view(),
                        existing@,
                        variants_of(candidate@)[j],
                        sym,
                    ),
            },
    {
        let n = variants.len();
        let mut order: Vec<usize> = Vec::new();
        let mut j: usize = 0;
        while j < n
            invariant
                j <= n,
                order@.len() == j,
                forall|m: int| 0 <= m < j ==> (#[trigger] order@[m]) == m,
            decreases n - j,
        {
            order.push(j);
            j += 1;
        }
        let ghost base = order@;
        crate::rng::shuffle(&mut order);
        proof {
            base.to_multiset_ensures();
            order@.to_multiset_ensures();
            assert(order@.len() == base.len());
            assert forall|m: int| 0 <= m < order@.len() implies (#[trigger] order@[m])
                < variants@.len() by {
                let x = order@[m];
                assert(order@.contains(x));
                assert(order@.to_multiset().count(x) > 0);
                assert(base.to_multiset().count(x) > 0);
                assert(base.contains(x));
                let m2 = choose|m2: int| 0 <= m2 < base.len() && base[m2] == x;
                assert(base[m2] == m2);
            }
        }
        let found = self.try_in_order(existing, candidate, variants, sym, &order);
        match found {
            Some(fit) => Some(fit),
            None => {
                proof {
                    assert forall|j2: int|
                        0 <= j2 < variants_of(candidate@).len() implies #[trigger] fit_fails(
                        self.board_view(),
                        self.dict_view(),
                        self.placed_view(),
                        existing@,
                        variants_of(candidate@)[j2],
                        sym,
                    ) by {
                        base.to_multiset_ensures();
                        order@.to_multiset_ensures();
                        assert(base[j2] == j2 as usize);
                        assert(base.contains(j2 as usize));
                        assert(base.to_multiset().count(j2 as usize) > 0);
                        assert(order@.to_multiset().count(j2 as usize) > 0);
                        assert(order@.contains(j2 as usize));
                        let k2 = choose|k2: int|
                            0 <= k2 < order@.len() && order@[k2] == j2 as usize;
                        assert(fit_fails(
                            self.board_view(),
                            self.dict_view(),
                            self.placed_view(),
                            existing@,
                            variants_of(candidate@)[order@[k2] as int],
                            sym,
                        ));
                    }
                }
                None
            },
        }
    }

    /// Tries the variants in exactly the order given and returns the first
    /// fit, if any. This part of the search is deterministic: its result is
    /// pinned to a function of the puzzle state and the order alone, so the
    /// same draws against the same state always give the same fit.
    fn try_in_order(
        &self,
        existing: &Vec<u16>,
        candidate: &Vec<u16>,
        variants: &Vec<Vec<u16>>,
        sym: u16,
        order: &Vec<usize>,
    ) -> (r: Option<(Vec<u16>, Vec<Point>)>)
        requires
            self.wf(),
            eligible(candidate@),
            candidate@.contains(sym),
            existing@.contains(sym),
            variants@.len() == variants_of(candidate@).len(),
            forall|j: int|
                0 <= j < variants@.len() ==> (#[trigger] variants@[j])@ == variants_of(
                    candidate@,
                )[j],
            forall|m: int| 0 <= m < order@.len() ==> (#[trigger] order@[m]) < variants@.len(),
        ensures
            match r {
                Some(fit) => {
                    &&& variants_of(candidate@).contains(fit.0@)
                    &&& run_shape(fit.1@)
                    &&& fit.1@.len() == fit.0@.len()
                    &&& !disruptive(self.board_view(), self.dict_view(), fit.0@, fit.1@)
                    &&& spec_location(self.placed_view(), existing@, fit.0@, sym) == Some(fit.1@)
                    &&& spec_try_order(
                        self.board_view(),
                        self.dict_view(),
                        self.placed_view(),
                        existing@,
                        candidate@,
                        sym,
                        order@,
                        0,
                    ) == Some((fit.0@, fit.1@))
                },
                None => {
                    &&& spec_try_order(
                        self.board_view(),
                        self.dict_view(),
                        self.placed_view(),
                        existing@,
                        candidate@,
                        sym,
                        order@,
                        0,
                    ) is None
                    &&& forall|k2: int|
                        0 <= k2 < order@.len() ==> #[trigger] fit_fails(
                            self.board_view(),
                            self.dict_view(),
                            self.placed_view(),
                            existing@,
                            variants_of(candidate@)[order@[k2] as int],
                            sym,
                        )
                },
            },
    {
        let mut k: usize = 0;
        while k < order.len()
            invariant
                self.wf(),
                eligible(candidate@),
                candidate@.contains(sym),
                existing@.contains(sym),
                variants@.len() == variants_of(candidate@).len(),
                forall|j2: int|
                    0 <= j2 < variants@.len() ==> (#[trigger] variants@[j2])@ == variants_of(
                        candidate@,
                    )[j2],
                forall|m: int| 0 <= m < order@.len() ==> (#[trigger] order@[m]) < variants@.len(),
                k <= order@.len(),
                spec_try_order(
                    self.board_view(),
                    self.dict_view(),
                    self.placed_view(),
                    existing@,
                    candidate@,
                    sym,
                    order@,
                    0,
                ) == spec_try_order(
                    self.board_view(),
                    self.dict_view(),
                    self.placed_view(),
                    existing@,
                    candidate@,
                    sym,
                    order@,
                    k as int,
                ),
                forall|k2: int|
                    0 <= k2 < k ==> #[trigger] fit_fails(
                        self.board_view(),
                        self.dict_view(),
                        self.placed_view(),
                        existing@,
                        variants_of(candidate@)[order@[k2] as int],
                        sym,
                    ),
            decreases order@.len() - k,
        {
            let jv = order[k];
            let variant = &variants[jv];
            proof {
                let w = candidate@;
                let v = variant@;
                assert(v == variants_of(w)[jv as int]);
                if jv == 0 {
                    assert(v == w);
                } else {
                    let i = jv - 1;
                    assert(v == insert_empty(w, i));
                    assert(v.len() == w.len() + 1);
                    let si = choose|si: int| 0 <= si < w.len() && w[si] == sym;
                    if si < i {
                        assert(v[si] == w[si]);
                    } else {
                        assert(v[si + 1] == w[si]);
                    }
                    assert(v.contains(sym));
                }
                assert(1 <= v.len() <= 4);
            }
            match self.candidate_location(existing, variant, sym) {
                Some(l) => {
                    if !self.is_disruptive(variant, &l) {
                        proof {
                            assert(variants_of(candidate@).contains(variant@));
                            assert(spec_try_order(
                                self.board_view(),
                                self.dict_view(),
                                self.placed_view(),
                                existing@,
                                candidate@,
                                sym,
                                order@,
                                k as int,
                            ) == Some((variant@, l@)));
                        }
                        return Some((copy_word(variant), l));
                    }
                    proof {
                        assert(fit_fails(
                            self.board_view(),
                            self.dict_view(),
                            self.placed_view(),
                            existing@,
                            variants_of(candidate@)[jv as int],
                            sym,
                        ));
                        assert(spec_try_order(
                            self.board_view(),
                            self.dict_view(),
                            self.placed_view(),
                            existing@,
                            candidate@,
                            sym,
                            order@,
                            k as int,
                        ) == spec_try_order(
                            self.board_view(),
                            self.dict_view(),
                            self.placed_view(),
                            existing@,
                            candidate@,
                            sym,
                            order@,
                            k + 1,
                        ));
                    }
                },
                None => {
                    proof {
                        assert(fit_fails(
                            self.board_view(),
                            self.dict_view(),
                            self.placed_view(),
                            existing@,
                            variants_of(candidate@)[jv as int],
                            sym,
                        ));
                        assert(spec_try_order(
                            self.board_view(),
                            self.dict_view(),
                            self.placed_view(),
                            existing@,
                            candidate@,
                            sym,
                            order@,
                            k as int,
                        ) == spec_try_order(
                            self.board_view(),
                            self.dict_view(),
                            self.placed_view(),
                            existing@,
                            candidate@,
                            sym,
                            order@,
                            k + 1,
                        ));
                    }
                },
            }
            k += 1;
        }
        None
    }

    /// Computes where the candidate variant would lie if it crossed the
    /// existing placed word at the shared symbol, perpendicular to it:
    /// `None` when the existing text is not a registered word or the span
    /// would leave the board.
    fn candidate_location(&self, existing: &Vec<u16>, candidate: &Vec<u16>, intersec: u16) -> (r:
        Option<Vec<Point>>)
        requires
            self.wf(),
            existing@.contains(intersec),
            candidate@.contains(intersec),
            1 <= candidate@.len() <= 4,
        ensures
            match r {
                Some(pts) => run_shape(pts@) && pts@.len() == candidate@.len() && spec_location(
                    self.placed_view(),
                    existing@,
                    candidate@,
                    intersec,
                ) == Some(pts@),
                None => spec_location(
                    self.placed_view(),
                    existing@,
                    candidate@,
                    intersec,
                ) is None,
            },
    {
        let found = self.reg_index_of(existing);
        let idx = match found {
            Some(m) => m,
            None => {
                return None;
            },
        };
        proof {
            assert(entry_wf(self.placed@[idx as int].0@, self.placed@[idx as int].1@));
            assert(entry_wf(existing@, self.placed@[idx as int].1@));
        }
        let coords = &self.placed[idx].1;
        proof {
            assert(existing@.len() >= 2);
            assert(coords@.len() >= existing@.len());
            assert((coords@[0]).x < 4 && coords@[0].y < 4);
        }
        let clen = coords.len();
        let existing_start = coords[0];
        let last = coords[clen - 1];
        let is_x = existing_start.x == last.x;
        let existing_offset = index_of_sym(existing, intersec);
        let cand_offset = index_of_sym(candidate, intersec);
        proof {
            assert(existing_offset < existing@.len() <= clen);
        }
        if is_x {
            proof {
                if varies_x(coords@) {
                    assert((coords@[clen - 1]).x == coords@[0].x + (clen - 1));
                    assert(false);
                }
                assert(varies_y(coords@));
                assert((coords@[existing_offset as int]).y == existing_start.y + existing_offset);
                assert((coords@[existing_offset as int]).y < 4);
            }
            if !Self::overflows(&existing_start, existing_offset, cand_offset, candidate.len(), true) {
                let anchor = Point {
                    x: existing_start.x - cand_offset,
                    y: existing_start.y + existing_offset,
                };
                let pts = Self::gen_coords(anchor, candidate.len(), true);
                proof {
                    assert forall|j: int| 0 <= j < pts@.len() implies (#[trigger] pts@[j]).x < 4
                        && pts@[j].y < 4 by {
                        assert(pts@[j].x == anchor.x + j && pts@[j].y == anchor.y);
                    }
                    assert(run_shape(pts@));
                }
                Some(pts)
            } else {
                None
            }
        } else {
            proof {
                if varies_y(coords@) {
                    assert((coords@[clen - 1]).y == coords@[0].y + (clen - 1));
                    assert(false);
                }
                assert(varies_x(coords@));
                assert((coords@[existing_offset as int]).x == existing_start.x + existing_offset);
                assert((coords@[existing_offset as int]).x < 4);
            }
            if !Self::overflows(&existing_start, existing_offset, cand_offset, candidate.len(), false) {
                let anchor = Point {
                    x: existing_start.x + existing_offset,
                    y: existing_start.y - cand_offset,
                };
                let pts = Self::gen_coords(anchor, candidate.len(), false);
                proof {
                    assert forall|j: int| 0 <= j < pts@.len() implies (#[trigger] pts@[j]).x < 4
                        && pts@[j].y < 4 by {
                        assert(pts@[j].y == anchor.y + j && pts@[j].x == anchor.x);
                    }
                    assert(run_shape(pts@));
                }
                Some(pts)
            } else {
                None
            }
        }
    }

    /// Runs the generation loop: repeatedly picks a random word and commits
    /// the first fit found, until every line shows at least two symbols or
    /// the attempt budget runs out. Returns whether the board is complete.
    /// Whatever happens, every line of the board stays legal.
    pub fn grow(
        &mut self,
        candidates: &Vec<Vec<u16>>,
        variant_sets: &Vec<Vec<Vec<u16>>>,
        attempts: usize,
    ) -> (done: bool)
        requires
            old(self).wf(),
            lines_legal(old(self).board_view(), old(self).dict_view()),
            candidates@.len() > 0,
            variant_sets@.len() == candidates@.len(),
            forall|i: int| 0 <= i < candidates@.len() ==> eligible(#[trigger] candidates@[i]@),
            forall|i: int|
                0 <= i < candidates@.len() ==> (#[trigger] variant_sets@[i])@.len() == variants_of(
                    candidates@[i]@,
                ).len(),
            forall|i: int, j: int|
                0 <= i < candidates@.len() && 0 <= j < variant_sets@[i]@.len() ==> (
                #[trigger] variant_sets@[i]@[j])@ == variants_of(candidates@[i]@)[j],
        ensures
            final(self).wf(),
            final(self).dict_view() == old(self).dict_view(),
            lines_legal(final(self).board_view(), final(self).dict_view()),
            done == complete(final(self).board_view()),
    {
        let mut left = attempts;
        while left > 0
            invariant
                self.wf(),
                self.dict_view() == old(self).dict_view(),
                lines_legal(self.board_view(), self.dict_view()),
                candidates@.len() > 0,
                variant_sets@.len() == candidates@.len(),
                forall|i: int| 0 <= i < candidates@.len() ==> eligible(#[trigger] candidates@[i]@),
                forall|i: int|
                    0 <= i < candidates@.len() ==> (#[trigger] variant_sets@[i])@.len()
                        == variants_of(candidates@[i]@).len(),
                forall|i: int, j: int|
                    0 <= i < candidates@.len() && 0 <= j < variant_sets@[i]@.len() ==> (
                    #[trigger] variant_sets@[i]@[j])@ == variants_of(candidates@[i]@)[j],
            decreases left,
        {
            if !self.not_complete() {
                return true;
            }
            left -= 1;
            let wi = crate::rng::pick_index(candidates.len());
            let word = &candidates[wi];
            let vars = &variant_sets[wi];
            let fit = self.find_fit(word, vars);
            match fit {
                Some((v, pts)) => {
                    let ghost ptsv = pts@;
                    let ghost pre = *self;
                    self.update(word, &v, pts);
                    proof {
                        lemma_overlay_lines(pre.board_view(), self.board_view(), v@, ptsv);
                        assert forall|k: int|
                            0 <= k < 4 implies #[trigger] line_pair_legal(
                            self.board_view(),
                            self.dict_view(),
                            k,
                        ) by {
                            assert(!overlay_pair_breaking(
                                pre.board_view(),
                                pre.dict_view(),
                                v@,
                                ptsv,
                                k,
                            ));
                            assert(row_line(self.board_view(), k) == overlay_row_line(
                                pre.board_view(),
                                v@,
                                ptsv,
                                k,
                            ));
                            assert(col_line(self.board_view(), k) == overlay_col_line(
                                pre.board_view(),
                                v@,
                                ptsv,
                                k,
                            ));
                        }
                    }
                },
                None => {},
            }
        }
        !self.not_complete()
    }

    /// Dumps the raw grid, row-major: two bytes per cell (empty cells show
    /// the sentinel), each row ended by a newline.
    pub fn render(&self) -> (r: Vec<u8>)
        requires
            self.wf(),
        ensures
            r@ == render_upto(self.board_view(), 4),
            r@.len() == 36,
    {
        let mut r: Vec<u8> = Vec::new();
        let mut i: usize = 0;
        while i < 4
            invariant
                self.wf(),
                i <= 4,
                r@ == render_upto(self.board_view(), i as int),
                r@.len() == 9 * i,
            decreases 4 - i,
        {
            let ghost row0 = r@;
            let mut j: usize = 0;
            while j < 4
                invariant
                    self.wf(),
                    i < 4,
                    j <= 4,
                    row0 == render_upto(self.board_view(), i as int),
                    row0.len() == 9 * i,
                    r@ == row0 + render_row(self.board_view(), i as int).subrange(0, 2 * j),
                decreases 4 - j,
            {
                let s = self.board[4 * i + j];
                proof {
                    assert(cell(self.board_view(), i as int, j as int) == self.board@[4 * i + j]);
                }
                r.push((s / 256) as u8);
                r.push((s % 256) as u8);
                proof {
                    assert(r@ =~= row0 + render_row(self.board_view(), i as int).subrange(
                        0,
                        2 * (j + 1),
                    ));
                }
                j += 1;
            }
            r.push(10u8);
            proof {
                assert(r@ =~= render_upto(self.board_view(), i + 1));
            }
            i += 1;
        }
        r
    }

    /// Finds the registry entry that carries this key, if any.
    fn reg_index_of(&self, key: &Vec<u16>) -> (r: Option<usize>)
        ensures
            match r {
                Some(m) => m < self.placed_view().len() && self.placed_view()[m as int].0@
                    == key@ && m as int == first_key(self.placed_view(), key@),
                None => !reg_has(self.placed_view(), key@) && first_key(
                    self.placed_view(),
                    key@,
                ) == -1,
            },
    {
        let mut m: usize = 0;
        while m < self.placed.len()
            invariant
                m <= self.placed@.len(),
                forall|m2: int| 0 <= m2 < m ==> (#[trigger] self.placed@[m2]).0@ != key@,
                first_key(self.placed@, key@) == first_key_from(self.placed@, key@, m as int),
            decreases self.placed@.len() - m,
        {
            if syms_eq(&self.placed[m].0, key) {
                proof {
                    assert(first_key_from(self.placed@, key@, m as int) == m as int);
                }
                return Some(m);
            }
            m += 1;
        }
        None
    }
}

/// Returns the first index at which the symbol occurs in the word.
fn index_of_sym(w: &Vec<u16>, s: u16) -> (i: usize)
    requires
        w@.contains(s),
    ensures
        i < w@.len(),
        w@[i as int] == s,
        i as int == first_index(w@, s),
{
    let mut i: usize = 0;
    while i < w.len()
        invariant
            i <= w@.len(),
            w@.contains(s),
            forall|j: int| 0 <= j < i ==> w@[j] != s,
            first_index(w@, s) == first_index_from(w@, s, i as int),
        decreases w@.len() - i,
    {
        if w[i] == s {
            proof {
                assert(first_index_from(w@, s, i as int) == i as int);
            }
            return i;
        }
        i += 1;
    }
    proof {
        assert(false);
    }
    0
}

/// Tests whether the symbol occurs in the word.
fn contains_sym(w: &Vec<u16>, s: u16) -> (r: bool)
    ensures
        r == w@.contains(s),
{
    let mut i: usize = 0;
    while i < w.len()
        invariant
            i <= w@.len(),
            forall|j: int| 0 <= j < i ==> w@[j] != s,
        decreases w@.len() - i,
    {
        if w[i] == s {
            return true;
        }
        i += 1;
    }
    false
}

/// Copies a point sequence.
fn copy_points(pts: &Vec<Point>) -> (r: Vec<Point>)
    ensures
        r@ == pts@,
{
    let mut r: Vec<Point> = Vec::new();
    let mut i: usize = 0;
    while i < pts.len()
        invariant
            i <= pts@.len(),
            r@ == pts@.subrange(0, i as int),
        decreases pts@.len() - i,
    {
        r.push(pts[i]);
        i += 1;
        proof {
            assert(r@ =~= pts@.subrange(0, i as int));
        }
    }
    proof {
        assert(r@ =~= pts@);
    }
    r
}

/// Copies a symbol sequence.
fn copy_word(w: &Vec<u16>) -> (r: Vec<u16>)
    ensures
        r@ == w@,
{
    let mut r: Vec<u16> = Vec::new();
    let mut i: usize = 0;
    while i < w.len()
        invariant
            i <= w@.len(),
            r@ == w@.subrange(0, i as int),
        decreases w@.len() - i,
    {
        r.push(w[i]);
        i += 1;
        proof {
            assert(r@ =~= w@.subrange(0, i as int));
        }
    }
    proof {
        assert(r@ =~= w@);
    }
    r
}

/// Compares two symbol sequences for equality.
fn syms_eq(a: &Vec<u16>, b: &Vec<u16>) -> (r: bool)
    ensures
        r == (a@ == b@),
{
    if a.len() != b.len() {
        return false;
    }
    let mut i: usize = 0;
    while i < a.len()
        invariant
            a@.len() == b@.len(),
            i <= a@.len(),
            forall|j: int| 0 <= j < i ==> a@[j] == b@[j],
        decreases a@.len() - i,
    {
        if a[i] != b[i] {
            return false;
        }
        i += 1;
    }
    proof {
        assert(a@ =~= b@);
    }
    true
}

} // verus!
