use dotbot::bingo::{
    bingo_card_drawing, create_bingo_card, get_multiplier_from_line, lay_out_bingo_card,
    scale_points, DrawOp, Paint,
};

#[test]
fn multiplier_by_line_count() {
    assert_eq!(get_multiplier_from_line(2), 8);
    assert_eq!(get_multiplier_from_line(3), 7);
    assert_eq!(get_multiplier_from_line(1), 6);
    assert_eq!(get_multiplier_from_line(4), 6);
}

#[test]
fn text_size_by_line_count() {
    assert_eq!(scale_points("one"), 25);
    assert_eq!(scale_points("one\ntwo"), 18);
    assert_eq!(scale_points("a\nb\nc"), 15);
    assert_eq!(scale_points("a\nb\nc\nd"), 14);
    assert_eq!(scale_points(""), 14);
    assert_eq!(scale_points("one\n"), 25);
}

fn words() -> Vec<String> {
    (0..30).map(|i| format!("w{}", i)).collect()
}

#[test]
fn card_is_laid_out_row_by_row() {
    let w = words();
    let refs: Vec<&str> = w.iter().map(|s| s.as_str()).collect();
    let card = lay_out_bingo_card(&refs);
    assert_eq!(card.len(), 5);
    assert_eq!(card[0], vec!["w0", "w1", "w2", "w3", "w4"]);
    assert_eq!(card[2], vec!["w10", "w11", "FREE", "w13", "w14"]);
    assert_eq!(card[4][4], "w24");
}

#[test]
fn card_uses_distinct_items_and_free_middle() {
    let w = words();
    let refs: Vec<&str> = w.iter().map(|s| s.as_str()).collect();
    let card = create_bingo_card(refs.clone());
    assert_eq!(card.len(), 5);
    assert_eq!(card[2][2], "FREE");
    let mut seen: Vec<&str> = Vec::new();
    for (i, row) in card.iter().enumerate() {
        assert_eq!(row.len(), 5);
        for (j, c) in row.iter().enumerate() {
            if i == 2 && j == 2 {
                continue;
            }
            assert!(refs.contains(c));
            assert!(!seen.contains(c));
            seen.push(c);
        }
    }
}

#[test]
fn drawing_of_a_full_card() {
    let w = words();
    let refs: Vec<&str> = w.iter().map(|s| s.as_str()).collect();
    let card = lay_out_bingo_card(&refs);
    let ops = bingo_card_drawing(&card);
    assert_eq!(ops.len(), 25 * 4 + 4);
    match &ops[0] {
        DrawOp::Fill { x, y, w, h, paint } => {
            assert_eq!((*x, *y, *w, *h, *paint), (2, 2, 150, 150, Paint::White));
        }
        _ => panic!("expected a fill"),
    }
    match &ops[3] {
        DrawOp::Text { left, top, points, text } => {
            // "w0" is two bytes: (150 - 20) / 2 = 65 across, (150 - 20) / 2 = 65 down.
            assert_eq!((*left, *top, *points, text.as_str()), (67, 67, 25, "w0"));
        }
        _ => panic!("expected text"),
    }
    match &ops[103] {
        DrawOp::Fill { x, y, w, h, paint } => {
            assert_eq!((*x, *y, *w, *h, *paint), (750, 0, 2, 752, Paint::Black));
        }
        _ => panic!("expected a fill"),
    }
}

#[test]
fn drawing_of_a_two_line_cell() {
    let card = vec![vec!["a\nbb"]];
    let ops = bingo_card_drawing(&card);
    assert_eq!(ops.len(), 3 + 2 + 4);
    match (&ops[3], &ops[4]) {
        (
            DrawOp::Text { left: l1, top: t1, points: p1, text: s1 },
            DrawOp::Text { left: l2, top: t2, points: p2, text: s2 },
        ) => {
            // longest line 2 bytes * 8 = 16: 150 - 16 = 134; (150 - 40) / 2 = 55.
            assert_eq!((*l1, *t1, *p1, s1.as_str()), (136, 57, 18, "a"));
            assert_eq!((*l2, *t2, *p2, s2.as_str()), (136, 77, 18, "bb"));
        }
        _ => panic!("expected two texts"),
    }
}

#[test]
fn long_text_is_shifted_left_rounding_towards_zero() {
    let long = "x".repeat(31);
    let card = vec![vec![long.as_str()]];
    let ops = bingo_card_drawing(&card);
    match &ops[3] {
        DrawOp::Text { left, .. } => {
            // (150 - 310) / 2 = -80 in Rust's division.
            assert_eq!(*left, 2 - 80);
        }
        _ => panic!("expected text"),
    }
}
