use mathspan::ast::{extract_ast_spans, AstKind, AstNode, CallArg, SpanEntry};
use mathspan::correlate::{correlate, extract_subexpressions, SubexpressionRecord};
use mathspan::frame::{glyph_run_range, FrameElem, FrameElemKind, FrameTree, Fragment};
use mathspan::geom::{add_sat, normalize_bbox, sub_sat, BoundingBox, RawRect};
use mathspan::msg::error_text;
use mathspan::span::ByteRange;

fn leaf(start: usize, end: usize) -> AstNode {
    AstNode { range: Some(ByteRange { start, end }), kind: AstKind::Leaf }
}

fn rect(ax: i64, ay: i64, bx: i64, by: i64) -> RawRect {
    RawRect { ax, ay, bx, by }
}

fn text_run(dx: i64, dy: i64, r: RawRect, glyphs: Vec<Option<ByteRange>>) -> FrameElem {
    FrameElem { dx, dy, kind: FrameElemKind::TextRun { rect: r, glyphs } }
}

fn glyph(start: usize, end: usize) -> Option<ByteRange> {
    Some(ByteRange { start, end })
}

fn texts(entries: &[SpanEntry]) -> Vec<String> {
    entries.iter().map(|e| String::from_utf8(e.text.clone()).unwrap()).collect()
}

#[test]
fn merge_takes_the_hull() {
    let a = BoundingBox { x0: 0, x1: 10, y0: 5, y1: 20 };
    let b = BoundingBox { x0: -3, x1: 4, y0: 8, y1: 30 };
    let m = a.merge(b);
    assert_eq!(m, BoundingBox { x0: -3, x1: 10, y0: 5, y1: 30 });
}

#[test]
fn normalize_orders_swapped_corners() {
    let b = normalize_bbox(&rect(10, -4, 2, 6), 100, 1000);
    assert_eq!(b, BoundingBox { x0: 102, x1: 110, y0: 996, y1: 1006 });
}

#[test]
fn saturating_arithmetic_clamps() {
    assert_eq!(add_sat(i64::MAX, 1), i64::MAX);
    assert_eq!(add_sat(i64::MIN, -1), i64::MIN);
    assert_eq!(add_sat(3, 4), 7);
    assert_eq!(sub_sat(i64::MIN, 1), i64::MIN);
    assert_eq!(sub_sat(10, 3), 7);
}

#[test]
fn extraction_is_root_first_in_visit_order() {
    // "a+b" as a math sequence of three terminals
    let src: Vec<u8> = b"a+b".to_vec();
    let root = AstNode {
        range: Some(ByteRange { start: 0, end: 3 }),
        kind: AstKind::MathSeq(vec![leaf(0, 1), leaf(1, 2), leaf(2, 3)]),
    };
    let entries = extract_ast_spans(&root, &src);
    assert_eq!(texts(&entries), vec!["a+b", "a", "+", "b"]);
    assert_eq!(entries[0].range, ByteRange { start: 0, end: 3 });
}

#[test]
fn extraction_drops_duplicate_ranges() {
    // a parenthesized expression shares its inner expression's range
    let src: Vec<u8> = b"(x)".to_vec();
    let inner = leaf(0, 3);
    let root = AstNode {
        range: Some(ByteRange { start: 0, end: 3 }),
        kind: AstKind::Parenthesized(Box::new(inner)),
    };
    let entries = extract_ast_spans(&root, &src);
    assert_eq!(entries.len(), 1);
    assert_eq!(entries[0].range, ByteRange { start: 0, end: 3 });
}

#[test]
fn extraction_skips_unresolvable_and_overlong_ranges() {
    let src: Vec<u8> = b"ab".to_vec();
    let root = AstNode {
        range: Some(ByteRange { start: 0, end: 2 }),
        kind: AstKind::MathSeq(vec![
            AstNode { range: None, kind: AstKind::Leaf },
            // end runs past the source: treated as unresolvable
            leaf(0, 5),
            leaf(1, 2),
        ]),
    };
    let entries = extract_ast_spans(&root, &src);
    assert_eq!(texts(&entries), vec!["ab", "b"]);
}

#[test]
fn extraction_visits_call_positional_arguments_only() {
    let src: Vec<u8> = b"f(x,k:1)".to_vec();
    let root = AstNode {
        range: Some(ByteRange { start: 0, end: 8 }),
        kind: AstKind::Call {
            callee: Box::new(leaf(0, 1)),
            args: vec![CallArg::Pos(leaf(2, 3)), CallArg::NonPos],
        },
    };
    let entries = extract_ast_spans(&root, &src);
    assert_eq!(texts(&entries), vec!["f(x,k:1)", "f", "x"]);
}

#[test]
fn glyph_run_range_is_min_start_max_end_of_resolvable() {
    let glyphs = vec![None, glyph(4, 6), glyph(1, 3), None, glyph(2, 9)];
    assert_eq!(glyph_run_range(&glyphs), Some(ByteRange { start: 1, end: 9 }));
    let none: Vec<Option<ByteRange>> = vec![None, None];
    assert_eq!(glyph_run_range(&none), None);
    let empty: Vec<Option<ByteRange>> = vec![];
    assert_eq!(glyph_run_range(&empty), None);
}

#[test]
fn group_offsets_compose_additively() {
    // a glyph run nested two groups deep; offsets add up
    let run = text_run(1, 2, rect(0, 0, 10, 10), vec![glyph(0, 1)]);
    let inner = FrameElem { dx: 10, dy: 20, kind: FrameElemKind::Group(FrameTree { items: vec![run] }) };
    let outer = FrameTree {
        items: vec![FrameElem { dx: 100, dy: 200, kind: FrameElemKind::Group(FrameTree { items: vec![inner] }) }],
    };
    let root = leaf(0, 1);
    let src: Vec<u8> = b"a".to_vec();
    let recs = extract_subexpressions(&root, &src, &outer);
    assert_eq!(recs.len(), 1);
    assert_eq!(recs[0].x, 111);
    assert_eq!(recs[0].y, 222);
    assert_eq!(recs[0].width, 10);
    assert_eq!(recs[0].height, 10);
}

#[test]
fn runs_and_shapes_without_spans_are_dropped() {
    let frame = FrameTree {
        items: vec![
            text_run(0, 0, rect(0, 0, 5, 5), vec![None, None]),
            FrameElem { dx: 0, dy: 0, kind: FrameElemKind::Shape { rect: rect(0, 0, 5, 5), range: None } },
            FrameElem { dx: 0, dy: 0, kind: FrameElemKind::Other },
        ],
    };
    let root = leaf(0, 1);
    let src: Vec<u8> = b"a".to_vec();
    let recs = extract_subexpressions(&root, &src, &frame);
    assert!(recs.is_empty());
}

fn simple_sum() -> (AstNode, Vec<u8>, FrameTree) {
    let src: Vec<u8> = b"a+b".to_vec();
    let root = AstNode {
        range: Some(ByteRange { start: 0, end: 3 }),
        kind: AstKind::MathSeq(vec![leaf(0, 1), leaf(1, 2), leaf(2, 3)]),
    };
    let frame = FrameTree {
        items: vec![
            text_run(0, 0, rect(0, 0, 10, 12), vec![glyph(0, 1)]),
            text_run(12, 0, rect(0, 2, 8, 10), vec![glyph(1, 2)]),
            text_run(22, 0, rect(0, 0, 10, 12), vec![glyph(2, 3)]),
        ],
    };
    (root, src, frame)
}

#[test]
fn simple_sum_yields_whole_and_parts() {
    let (root, src, frame) = simple_sum();
    let recs = extract_subexpressions(&root, &src, &frame);
    assert_eq!(recs.len(), 4);
    let whole = &recs[0];
    assert_eq!(String::from_utf8(whole.text.clone()).unwrap(), "a+b");
    assert_eq!((whole.source_start, whole.source_end), (0, 3));
    assert_eq!(whole.glyph_lines, 3);
    assert_eq!((whole.x, whole.y, whole.width, whole.height), (0, 0, 32, 12));
    let a = &recs[1];
    assert_eq!(String::from_utf8(a.text.clone()).unwrap(), "a");
    assert_eq!((a.x, a.y, a.width, a.height), (0, 0, 10, 12));
    assert!(a.width > 0 && a.height > 0 && a.glyph_lines >= 1);
    let b = &recs[3];
    assert_eq!(String::from_utf8(b.text.clone()).unwrap(), "b");
    assert_eq!((b.x, b.y, b.width, b.height), (22, 0, 10, 12));
}

#[test]
fn fraction_numerator_sits_above_denominator() {
    // "a/b" as a fraction: numerator above, denominator below
    let src: Vec<u8> = b"a/b".to_vec();
    let root = AstNode {
        range: Some(ByteRange { start: 0, end: 3 }),
        kind: AstKind::Frac { num: Box::new(leaf(0, 1)), denom: Box::new(leaf(2, 3)) },
    };
    let frame = FrameTree {
        items: vec![
            text_run(2, 0, rect(0, 0, 8, 10), vec![glyph(0, 1)]),
            text_run(2, 14, rect(0, 0, 8, 10), vec![glyph(2, 3)]),
        ],
    };
    let recs = extract_subexpressions(&root, &src, &frame);
    assert_eq!(recs.len(), 3);
    assert_eq!(String::from_utf8(recs[0].text.clone()).unwrap(), "a/b");
    assert_eq!(recs[0].glyph_lines, 2);
    let num = &recs[1];
    let den = &recs[2];
    assert_eq!(String::from_utf8(num.text.clone()).unwrap(), "a");
    assert_eq!(String::from_utf8(den.text.clone()).unwrap(), "b");
    // numerator's bottom edge is no lower than denominator's top edge
    assert!(num.y + num.height <= den.y);
}

#[test]
fn attachment_superscript_sits_above_and_right_of_base() {
    // "x^(y+1)": base x, superscript (y+1)
    let src: Vec<u8> = b"x^(y+1)".to_vec();
    let sup = AstNode {
        range: Some(ByteRange { start: 2, end: 7 }),
        kind: AstKind::MathSeq(vec![leaf(3, 4), leaf(4, 5), leaf(5, 6)]),
    };
    let root = AstNode {
        range: Some(ByteRange { start: 0, end: 7 }),
        kind: AstKind::Attach { base: Box::new(leaf(0, 1)), bottom: None, top: Some(Box::new(sup)) },
    };
    let frame = FrameTree {
        items: vec![
            text_run(0, 10, rect(0, 0, 10, 12), vec![glyph(0, 1)]),
            text_run(11, 0, rect(0, 0, 4, 6), vec![glyph(3, 4)]),
            text_run(16, 0, rect(0, 0, 4, 6), vec![glyph(4, 5)]),
            text_run(21, 0, rect(0, 0, 4, 6), vec![glyph(5, 6)]),
        ],
    };
    let recs = extract_subexpressions(&root, &src, &frame);
    let base = recs.iter().find(|r| r.text == b"x".to_vec()).unwrap();
    let sup = recs.iter().find(|r| r.text == b"(y+1)".to_vec()).unwrap();
    let whole = &recs[0];
    assert_eq!(String::from_utf8(whole.text.clone()).unwrap(), "x^(y+1)");
    assert_eq!(sup.glyph_lines, 3);
    // superscript above and to the right of the base
    assert!(sup.y + sup.height <= base.y + base.height);
    assert!(sup.x >= base.x + base.width);
}

#[test]
fn empty_input_yields_no_records() {
    let src: Vec<u8> = Vec::new();
    let root = AstNode { range: Some(ByteRange { start: 0, end: 0 }), kind: AstKind::MathSeq(vec![]) };
    let frame = FrameTree { items: vec![] };
    let recs = extract_subexpressions(&root, &src, &frame);
    assert!(recs.is_empty());
}

#[test]
fn unresolvable_spans_never_reach_records() {
    // a detached node and a detached glyph: both silently skipped
    let src: Vec<u8> = b"ab".to_vec();
    let root = AstNode {
        range: Some(ByteRange { start: 0, end: 2 }),
        kind: AstKind::MathSeq(vec![AstNode { range: None, kind: AstKind::Leaf }, leaf(0, 1)]),
    };
    let frame = FrameTree {
        items: vec![text_run(0, 0, rect(0, 0, 6, 6), vec![None, glyph(0, 1)])],
    };
    let recs = extract_subexpressions(&root, &src, &frame);
    assert_eq!(recs.len(), 2);
    for r in &recs {
        assert!(r.source_start <= r.source_end && r.source_end <= src.len());
    }
}

#[test]
fn correlation_requires_full_containment() {
    // a fragment straddling the entry's end is not merged
    let entries = vec![
        SpanEntry { range: ByteRange { start: 0, end: 2 }, text: b"ab".to_vec() },
    ];
    let frags = vec![
        Fragment { range: ByteRange { start: 1, end: 3 }, bbox: BoundingBox { x0: 0, x1: 1, y0: 0, y1: 1 } },
        Fragment { range: ByteRange { start: 0, end: 2 }, bbox: BoundingBox { x0: 5, x1: 9, y0: 2, y1: 4 } },
    ];
    let recs: Vec<SubexpressionRecord> = correlate(&entries, &frags);
    assert_eq!(recs.len(), 1);
    assert_eq!(recs[0].glyph_lines, 1);
    assert_eq!((recs[0].x, recs[0].y, recs[0].width, recs[0].height), (5, 2, 4, 2));
}

#[test]
fn error_text_joins_messages_with_newlines() {
    let prefix: Vec<u8> = b"Parse error: ".to_vec();
    let msgs: Vec<Vec<u8>> = vec![b"unclosed delimiter".to_vec(), b"expected expression".to_vec()];
    let t = error_text(&prefix, &msgs);
    assert_eq!(
        String::from_utf8(t).unwrap(),
        "Parse error: unclosed delimiter\nexpected expression"
    );
    let one = error_text(&prefix, &vec![b"dangling operator".to_vec()]);
    assert_eq!(String::from_utf8(one).unwrap(), "Parse error: dangling operator");
    let zero = error_text(&prefix, &Vec::new());
    assert_eq!(String::from_utf8(zero).unwrap(), "Parse error: ");
}

#[test]
fn extraction_covers_every_recursive_kind() {
    // root(x) over a delimited body holding an array, a dictionary, a
    // content block, a binary, a unary, and an unanticipated node
    let src: Vec<u8> = b"0123456789".to_vec();
    let root = AstNode {
        range: Some(ByteRange { start: 0, end: 10 }),
        kind: AstKind::MathSeq(vec![
            AstNode {
                range: Some(ByteRange { start: 0, end: 2 }),
                kind: AstKind::Root { radicand: Box::new(leaf(1, 2)) },
            },
            AstNode {
                range: Some(ByteRange { start: 2, end: 4 }),
                kind: AstKind::Delimited(vec![leaf(3, 4)]),
            },
            AstNode {
                range: Some(ByteRange { start: 4, end: 5 }),
                kind: AstKind::ArrayLit(vec![
                    mathspan::ast::ArrayEntry::Pos(leaf(4, 5)),
                ]),
            },
            AstNode {
                range: Some(ByteRange { start: 5, end: 6 }),
                kind: AstKind::DictLit(vec![
                    mathspan::ast::DictEntry::Keyed { key: leaf(5, 6), value: leaf(6, 7) },
                ]),
            },
            AstNode {
                range: Some(ByteRange { start: 7, end: 8 }),
                kind: AstKind::ContentBlock(vec![leaf(7, 8)]),
            },
            AstNode {
                range: Some(ByteRange { start: 8, end: 9 }),
                kind: AstKind::Binary {
                    lhs: Box::new(leaf(8, 9)),
                    rhs: Box::new(AstNode {
                        range: Some(ByteRange { start: 9, end: 10 }),
                        kind: AstKind::Unary(Box::new(leaf(9, 10))),
                    }),
                },
            },
            AstNode { range: Some(ByteRange { start: 9, end: 9 }), kind: AstKind::Other },
        ]),
    };
    let entries = extract_ast_spans(&root, &src);
    let ranges: Vec<(usize, usize)> =
        entries.iter().map(|e| (e.range.start, e.range.end)).collect();
    assert_eq!(
        ranges,
        vec![
            (0, 10),
            (0, 2),
            (1, 2),
            (2, 4),
            (3, 4),
            (4, 5),
            (5, 6),
            (6, 7),
            (7, 8),
            (8, 9),
            (9, 10),
            (9, 9),
        ]
    );
    // duplicates were dropped: each range occurs once
    for (i, a) in ranges.iter().enumerate() {
        for b in ranges.iter().skip(i + 1) {
            assert_ne!(a, b);
        }
    }
}

#[test]
fn shapes_with_spans_become_fragments() {
    // a fraction bar rendered as a shape, attributed to the whole fraction
    let src: Vec<u8> = b"a/b".to_vec();
    let root = AstNode {
        range: Some(ByteRange { start: 0, end: 3 }),
        kind: AstKind::Frac { num: Box::new(leaf(0, 1)), denom: Box::new(leaf(2, 3)) },
    };
    let frame = FrameTree {
        items: vec![
            text_run(0, 0, rect(0, 0, 8, 10), vec![glyph(0, 1)]),
            FrameElem {
                dx: 0,
                dy: 12,
                kind: FrameElemKind::Shape {
                    rect: rect(0, 0, 8, 1),
                    range: Some(ByteRange { start: 0, end: 3 }),
                },
            },
            text_run(0, 14, rect(0, 0, 8, 10), vec![glyph(2, 3)]),
        ],
    };
    let recs = extract_subexpressions(&root, &src, &frame);
    assert_eq!(recs.len(), 3);
    // the whole fraction merges both runs and the bar
    assert_eq!(recs[0].glyph_lines, 3);
    assert_eq!((recs[0].y, recs[0].height), (0, 24));
    // numerator and denominator each merge only their own run
    assert_eq!(recs[1].glyph_lines, 1);
    assert_eq!(recs[2].glyph_lines, 1);
}
