//! The rendered frame tree and the collector that flattens nested groups
//! into a list of (byte range, bounding box) fragments, accumulating a
//! running offset through group nesting.

use vstd::prelude::*;
use crate::span::ByteRange;
use crate::geom::{
    BoundingBox, RawRect, add_sat, box_wf, normalize_bbox, normalize_spec, sat_add,
};

verus! {

/// A rendered frame: a list of positioned items.
pub struct FrameTree {
    pub items: Vec<FrameElem>,
}

/// One positioned item: its offset relative to the enclosing frame, and
/// what it is.
pub struct FrameElem {
    pub dx: i64,
    pub dy: i64,
    pub kind: FrameElemKind,
}

pub enum FrameElemKind {
    /// A nested group; its accumulated offset applies to all descendants.
    Group(FrameTree),
    /// A glyph run: its raw bounding rectangle and, per glyph, the glyph's
    /// resolved byte range, `None` where the span did not resolve.
    TextRun { rect: RawRect, glyphs: Vec<Option<ByteRange>> },
    /// A vector shape carrying its own single span.
    Shape { rect: RawRect, range: Option<ByteRange> },
    /// Any other item kind contributes no fragment and affects no offsets.
    Other,
}

/// One glyph run's or shape's contribution: a byte range and an absolute,
/// normalized bounding box.
#[derive(Clone, Copy, Debug, PartialEq, Eq, Structural)]
pub struct Fragment {
    pub range: ByteRange,
    pub bbox: BoundingBox,
}

/// The byte range of a glyph run's first `i` glyphs: minimum start and
/// maximum end over the glyphs that resolve; `None` if none resolves.
pub open spec fn run_range_prefix(gs: Seq<Option<ByteRange>>, i: int) -> Option<ByteRange>
    decreases i,
{
    if 0 < i <= gs.len() {
        let prev = run_range_prefix(gs, i - 1);
        match gs[i - 1] {
            Option::None => prev,
            Option::Some(g) => match prev {
                Option::None => Option::Some(g),
                Option::Some(p) => Option::Some(
                    ByteRange {
                        start: if g.start < p.start {
                            g.start
                        } else {
                            p.start
                        },
                        end: if g.end > p.end {
                            g.end
                        } else {
                            p.end
                        },
                    },
                ),
            },
        }
    } else {
        Option::None
    }
}

pub open spec fn run_range(gs: Seq<Option<ByteRange>>) -> Option<ByteRange> {
    run_range_prefix(gs, gs.len() as int)
}

/// Folds a glyph run's resolvable glyph ranges into one range, or `None`
/// when no glyph resolves (such a run cannot be attributed and is dropped).
pub fn glyph_run_range(glyphs: &Vec<Option<ByteRange>>) -> (r: Option<ByteRange>)
    ensures
        r == run_range(glyphs@),
{
    let mut acc: Option<ByteRange> = None;
    let mut i: usize = 0;
    while i < glyphs.len()
        invariant
            i <= glyphs@.len(),
            acc == run_range_prefix(glyphs@, i as int),
        decreases glyphs@.len() - i,
    {
        let gl = &glyphs[i];
        match gl {
            Some(g) => {
                acc = match acc {
                    None => Some(*g),
                    Some(p) => Some(
                        ByteRange {
                            start: if g.start < p.start {
                                g.start
                            } else {
                                p.start
                            },
                            end: if g.end > p.end {
                                g.end
                            } else {
                                p.end
                            },
                        },
                    ),
                };
            },
            None => {},
        }
        i += 1;
    }
    acc
}

/// All fragments below `t`, in traversal order, with `ox`, `oy` the
/// accumulated offset of `t`'s own coordinate frame.
pub open spec fn collect_tree(t: FrameTree, ox: int, oy: int) -> Seq<Fragment>
    decreases t, 0int,
{
    collect_items_prefix(t.items@, ox, oy, t.items@.len() as int)
}

pub open spec fn elem_fragments(e: FrameElem, ox: int, oy: int) -> Seq<Fragment>
    decreases e, 0int,
{
    match e.kind {
        FrameElemKind::Group(sub) => collect_tree(
            sub,
            sat_add(ox, e.dx as int),
            sat_add(oy, e.dy as int),
        ),
        FrameElemKind::TextRun { rect, glyphs } => match run_range(glyphs@) {
            Option::Some(r) => seq![
                Fragment {
                    range: r,
                    bbox: normalize_spec(rect, sat_add(ox, e.dx as int), sat_add(oy, e.dy as int)),
                }
            ],
            Option::None => Seq::empty(),
        },
        FrameElemKind::Shape { rect, range } => match range {
            Option::Some(r) => seq![
                Fragment {
                    range: r,
                    bbox: normalize_spec(rect, sat_add(ox, e.dx as int), sat_add(oy, e.dy as int)),
                }
            ],
            Option::None => Seq::empty(),
        },
        FrameElemKind::Other => Seq::empty(),
    }
}

pub open spec fn collect_items_prefix(s: Seq<FrameElem>, ox: int, oy: int, i: int) -> Seq<
    Fragment,
>
    decreases s, i,
{
    if 0 < i <= s.len() {
        collect_items_prefix(s, ox, oy, i - 1) + elem_fragments(s[i - 1], ox, oy)
    } else {
        Seq::empty()
    }
}

/// Walks the frame, accumulating the offset through nested groups, and
/// appends one fragment per attributable glyph run or shape.
pub fn get_frame_box_spans(t: &FrameTree, ox: i64, oy: i64, res: &mut Vec<Fragment>)
    ensures
        final(res)@ == old(res)@ + collect_tree(*t, ox as int, oy as int),
    decreases *t,
{
    let ghost res0 = res@;
    let n = t.items.len();
    let mut i: usize = 0;
    while i < n
        invariant
            i <= n,
            n == t.items@.len(),
            res@ == res0 + collect_items_prefix(t.items@, ox as int, oy as int, i as int),
        decreases n - i,
    {
        let it = &t.items[i];
        let ex = add_sat(ox, it.dx);
        let ey = add_sat(oy, it.dy);
        match &it.kind {
            FrameElemKind::Group(sub) => {
                get_frame_box_spans(sub, ex, ey, res);
                proof {
                    assert(elem_fragments(t.items@[i as int], ox as int, oy as int)
                        == collect_tree(*sub, ex as int, ey as int));
                }
            },
            FrameElemKind::TextRun { rect, glyphs } => {
                let bb = normalize_bbox(rect, ex, ey);
                match glyph_run_range(glyphs) {
                    Some(r) => {
                        res.push(Fragment { range: r, bbox: bb });
                        proof {
                            assert(elem_fragments(t.items@[i as int], ox as int, oy as int)
                                =~= seq![Fragment { range: r, bbox: bb }]);
                        }
                    },
                    None => {
                        proof {
                            assert(elem_fragments(t.items@[i as int], ox as int, oy as int)
                                =~= Seq::<Fragment>::empty());
                        }
                    },
                }
            },
            FrameElemKind::Shape { rect, range } => {
                let bb = normalize_bbox(rect, ex, ey);
                match range {
                    Some(r) => {
                        res.push(Fragment { range: *r, bbox: bb });
                        proof {
                            assert(elem_fragments(t.items@[i as int], ox as int, oy as int)
                                =~= seq![Fragment { range: *r, bbox: bb }]);
                        }
                    },
                    None => {
                        proof {
                            assert(elem_fragments(t.items@[i as int], ox as int, oy as int)
                                =~= Seq::<Fragment>::empty());
                        }
                    },
                }
            },
            FrameElemKind::Other => {
                proof {
                    assert(elem_fragments(t.items@[i as int], ox as int, oy as int)
                        =~= Seq::<Fragment>::empty());
                }
            },
        }
        proof {
            assert(res@ =~= res0 + collect_items_prefix(
                t.items@,
                ox as int,
                oy as int,
                i as int + 1,
            ));
        }
        i += 1;
    }
}

/// Every box in `s` satisfies the ordering invariant.
pub open spec fn boxes_ok(s: Seq<Fragment>) -> bool {
    forall|i: int| 0 <= i < s.len() ==> box_wf(#[trigger] s[i].bbox)
}

proof fn lemma_boxes_ok_concat(a: Seq<Fragment>, b: Seq<Fragment>)
    requires
        boxes_ok(a),
        boxes_ok(b),
    ensures
        boxes_ok(a + b),
{
    assert forall|i: int| 0 <= i < (a + b).len() implies box_wf(#[trigger] (a + b)[i].bbox) by {
        if i < a.len() {
            assert((a + b)[i] == a[i]);
        } else {
            assert((a + b)[i] == b[i - a.len()]);
        }
    }
}

/// Every collected fragment's box satisfies the ordering invariant: the
/// normalizer orders both axes whatever the raw corner convention was.
pub proof fn lemma_collect_tree_boxes(t: FrameTree, ox: int, oy: int)
    ensures
        boxes_ok(collect_tree(t, ox, oy)),
    decreases t, 0int,
{
    lemma_collect_items_boxes(t.items@, ox, oy, t.items@.len() as int);
}

proof fn lemma_elem_boxes(e: FrameElem, ox: int, oy: int)
    ensures
        boxes_ok(elem_fragments(e, ox, oy)),
    decreases e, 0int,
{
    match e.kind {
        FrameElemKind::Group(sub) => {
            lemma_collect_tree_boxes(sub, sat_add(ox, e.dx as int), sat_add(oy, e.dy as int));
        },
        FrameElemKind::TextRun { rect, glyphs } => {},
        FrameElemKind::Shape { rect, range } => {},
        FrameElemKind::Other => {},
    }
}

proof fn lemma_collect_items_boxes(s: Seq<FrameElem>, ox: int, oy: int, i: int)
    ensures
        boxes_ok(collect_items_prefix(s, ox, oy, i)),
    decreases s, i,
{
    if 0 < i <= s.len() {
        lemma_collect_items_boxes(s, ox, oy, i - 1);
        lemma_elem_boxes(s[i - 1], ox, oy);
        lemma_boxes_ok_concat(
            collect_items_prefix(s, ox, oy, i - 1),
            elem_fragments(s[i - 1], ox, oy),
        );
    }
}

} // verus!
