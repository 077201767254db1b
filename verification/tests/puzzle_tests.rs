use puzzler::Puzzle;

const EMPTY_SYM: u16 = 0x2D2D;

fn syms(text: &str) -> Vec<u16> {
    Puzzle::split(&text.as_bytes().to_vec())
}

#[test]
fn split_packs_pairs_of_bytes() {
    assert_eq!(syms("aabb"), vec![0x6161, 0x6262]);
    assert_eq!(syms(""), Vec::<u16>::new());
    assert_eq!(syms("aaccbb"), vec![0x6161, 0x6363, 0x6262]);
}

#[test]
fn variants_count_and_contents() {
    let w = syms("aabb");
    let vs = Puzzle::make_variants(&w);
    assert_eq!(vs.len(), 4);
    assert_eq!(vs[0], syms("aabb"));
    assert_eq!(vs[1], syms("--aabb"));
    assert_eq!(vs[2], syms("aa--bb"));
    assert_eq!(vs[3], syms("aabb--"));
}

#[test]
fn variants_of_three_symbol_word() {
    let w = syms("aaccbb");
    let vs = Puzzle::make_variants(&w);
    assert_eq!(vs.len(), 5);
    assert_eq!(vs[0], syms("aaccbb"));
    assert_eq!(vs[1], syms("--aaccbb"));
    assert_eq!(vs[2], syms("aa--ccbb"));
    assert_eq!(vs[3], syms("aacc--bb"));
    assert_eq!(vs[4], syms("aaccbb--"));
}

#[test]
fn eight_lines_always() {
    let candidates = vec![syms("aabb")];
    let p = Puzzle::new(&candidates);
    assert_eq!(p.on_board().len(), 8);
}

#[test]
fn breaking_rules() {
    let candidates = vec![syms("aabb"), syms("aaccbb")];
    let p = Puzzle::new(&candidates);
    // At most one symbol: never breaking.
    assert!(!p.is_breaking(&syms("")));
    assert!(!p.is_breaking(&syms("aa")));
    assert!(!p.is_breaking(&syms("zz")));
    // Two or three symbols: breaking iff absent from the dictionary.
    assert!(!p.is_breaking(&syms("aabb")));
    assert!(!p.is_breaking(&syms("aaccbb")));
    assert!(p.is_breaking(&syms("ccdd")));
    assert!(p.is_breaking(&syms("aabbcc")));
    // Four symbols: always breaking, even if it were a dictionary word.
    assert!(p.is_breaking(&syms("aabbccdd")));
}

#[test]
fn seeded_board_is_legal_and_incomplete() {
    let candidates = vec![syms("aaccbb")];
    let p = Puzzle::new(&candidates);
    let lines = p.on_board();
    assert_eq!(lines.len(), 8);
    for line in &lines {
        assert!(!p.is_breaking(line));
        assert!(line.len() < 4);
    }
    assert!(p.not_complete());
}

#[test]
fn seed_lands_on_row_one() {
    let candidates = vec![syms("aaccbb")];
    let p = Puzzle::new(&candidates);
    let lines = p.on_board();
    // Lines come as (row k, column k) pairs: entry 2 is row 1.
    assert_eq!(lines[2], syms("aaccbb"));
    assert_eq!(lines[1], syms("aa"));
    assert_eq!(lines[3], syms("cc"));
    assert_eq!(lines[5], syms("bb"));
}

#[test]
fn render_of_seeded_board() {
    let candidates = vec![syms("aabb")];
    let p = Puzzle::new(&candidates);
    let dump = p.render();
    assert_eq!(
        dump,
        b"--------\naabb----\n--------\n--------\n".to_vec()
    );
}

#[test]
fn crossing_scenario() {
    let candidates = vec![syms("aabb"), syms("aaccbb")];
    let mut p = Puzzle::new(&candidates);
    let lines = p.on_board();
    let seeded = lines[2].clone();
    let other = if seeded == syms("aaccbb") {
        syms("aabb")
    } else {
        syms("aaccbb")
    };
    let variants = Puzzle::make_variants(&other);
    let fit = p.find_fit(&other, &variants);
    let (variant, points) = fit.expect("a crossing through the shared symbol must exist");
    // The placement stays on the board and does not disrupt it.
    assert!(points.len() >= other.len());
    for pt in &points {
        assert!(pt.x < 4 && pt.y < 4);
    }
    assert!(!p.is_disruptive(&variant, &points));
    p.update(&other, &variant, points);
    let after = p.on_board();
    // The seeded word still reads along row 1; the other word now reads
    // down column 0.
    assert_eq!(after[2], seeded);
    assert_eq!(after[1], other);
    for line in &after {
        assert!(!p.is_breaking(line));
    }
}

#[test]
fn no_self_crossing_with_single_word() {
    let candidates = vec![syms("aabb")];
    let p = Puzzle::new(&candidates);
    // The only word on the board is the candidate itself, so no fit exists.
    let variants = Puzzle::make_variants(&syms("aabb"));
    assert!(p.find_fit(&syms("aabb"), &variants).is_none());
}

#[test]
fn unplaceable_word_finds_no_fit() {
    let candidates = vec![syms("aaccbb")];
    let p = Puzzle::new(&candidates);
    // No shared symbol with anything on the board.
    let w = syms("xxyy");
    let variants = Puzzle::make_variants(&w);
    assert!(p.find_fit(&w, &variants).is_none());
}

#[test]
fn place_writes_symbols_and_empty_clears() {
    let candidates = vec![syms("aabb")];
    let mut p = Puzzle::new(&candidates);
    // The seed sits on row 1, columns 0 and 1. Overwrite column 0 with the
    // empty symbol and column 1 with a fresh symbol.
    let word = syms("--cc");
    let points = vec![
        puzzler::Point { x: 1, y: 0 },
        puzzler::Point { x: 1, y: 1 },
    ];
    p.place(&word, points);
    let lines = p.on_board();
    assert_eq!(lines[2], syms("cc"));
}

#[test]
fn overfull_line_is_disruptive() {
    let candidates = vec![syms("aabb"), syms("ccdd")];
    let p = Puzzle::new(&candidates);
    let lines = p.on_board();
    let seeded = lines[2].clone();
    let other = if seeded == syms("aabb") {
        syms("ccdd")
    } else {
        syms("aabb")
    };
    // Laying the other word right after the seed would make row 1 read
    // four symbols, which is always illegal.
    let points = vec![
        puzzler::Point { x: 1, y: 2 },
        puzzler::Point { x: 1, y: 3 },
    ];
    assert!(p.is_disruptive(&other, &points));
    // Laying it on a free row is harmless: each touched column still shows
    // a single symbol and the new row reads a dictionary word.
    let free_row = vec![
        puzzler::Point { x: 3, y: 2 },
        puzzler::Point { x: 3, y: 3 },
    ];
    assert!(!p.is_disruptive(&other, &free_row));
}

#[test]
fn select_any_picks_a_candidate() {
    let candidates = vec![syms("aabb"), syms("ccdd"), syms("eeff")];
    for _ in 0..20 {
        let w = Puzzle::select_any(&candidates);
        assert!(candidates.contains(&w));
    }
}

#[test]
fn grow_keeps_every_line_legal() {
    let candidates = vec![syms("aabb"), syms("aaccbb"), syms("bbdd"), syms("ddaa")];
    let variant_sets: Vec<Vec<Vec<u16>>> =
        candidates.iter().map(Puzzle::make_variants).collect();
    let mut p = Puzzle::new(&candidates);
    let done = p.grow(&candidates, &variant_sets, 200);
    let lines = p.on_board();
    for line in &lines {
        assert!(!p.is_breaking(line));
    }
    if done {
        for line in &lines {
            assert!(line.len() >= 2);
        }
    }
    assert_eq!(done, !p.not_complete());
}

#[test]
fn empty_cells_render_as_sentinel() {
    assert_eq!(EMPTY_SYM, syms("--")[0]);
}
