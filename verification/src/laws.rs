//! The library's laws, proved over the same spec functions the executable
//! functions' contracts use.

use vstd::prelude::*;
use crate::ast::{
    AstNode, EntryV, deduped, entries_of, entry_of_range, lemma_dedup_ok, lemma_root_range_first,
    lemma_visit_node_ok, node_wf, visit_node,
};
use crate::correlate::{
    RecordV, entry_matches, record_of, records_prefix, records_spec, scan_box_prefix,
    scan_count_prefix, subexpressions_spec,
};
use crate::frame::{Fragment, FrameTree, boxes_ok, collect_tree, lemma_collect_tree_boxes};
use crate::geom::box_wf;
use crate::span::range_wf;

verus! {

/// Every entry's endpoints are ordered and lie within the source.
pub open spec fn entries_ok(es: Seq<EntryV>, len: int) -> bool {
    forall|k: int| 0 <= k < es.len() ==> 0 <= (#[trigger] es[k]).start <= es[k].end <= len
}

proof fn lemma_records_prefix_ranges(entries: Seq<EntryV>, frags: Seq<Fragment>, len: int, i: int)
    requires
        entries_ok(entries, len),
    ensures
        forall|k: int|
            0 <= k < records_prefix(entries, frags, i).len() ==> 0 <= (
            #[trigger] records_prefix(entries, frags, i)[k]).start <= records_prefix(
                entries,
                frags,
                i,
            )[k].end <= len,
    decreases i,
{
    if 0 < i <= entries.len() {
        lemma_records_prefix_ranges(entries, frags, len, i - 1);
        let prev = records_prefix(entries, frags, i - 1);
        match scan_box_prefix(entries[i - 1], frags, frags.len() as int) {
            Option::Some(b) => {
                let rec = record_of(
                    entries[i - 1],
                    b,
                    scan_count_prefix(entries[i - 1], frags, frags.len() as int),
                );
                assert forall|k: int| 0 <= k < prev.push(rec).len() implies 0 <= (
                #[trigger] prev.push(rec)[k]).start <= prev.push(rec)[k].end <= len by {
                    if k < prev.len() {
                        assert(prev.push(rec)[k] == prev[k]);
                    } else {
                        assert(prev.push(rec)[k] == rec);
                    }
                }
            },
            Option::None => {},
        }
    }
}

/// Range invariant: every record's source endpoints are ordered and lie
/// within `[0, len(source)]`.
pub proof fn lemma_range_invariant(root: AstNode, src: Seq<u8>, frame: FrameTree)
    requires
        node_wf(root),
    ensures
        forall|k: int|
            0 <= k < subexpressions_spec(root, src, frame).len() ==> 0 <= (
            #[trigger] subexpressions_spec(root, src, frame)[k]).start <= subexpressions_spec(
                root,
                src,
                frame,
            )[k].end <= src.len(),
{
    let len = src.len() as int;
    lemma_visit_node_ok(root, len);
    lemma_dedup_ok(visit_node(root, len), len);
    let dd = deduped(visit_node(root, len));
    let es = entries_of(dd, src);
    assert forall|k: int| 0 <= k < es.len() implies 0 <= (#[trigger] es[k]).start <= es[k].end
        <= len by {
        assert(es[k] == entry_of_range(dd[k], src));
        assert(range_wf(dd[k]) && dd[k].end <= len);
    }
    lemma_records_prefix_ranges(es, collect_tree(frame, 0, 0), len, es.len() as int);
}

proof fn lemma_scan_box_prefix_wf(e: EntryV, frags: Seq<Fragment>, i: int)
    requires
        boxes_ok(frags),
    ensures
        scan_box_prefix(e, frags, i) is Some ==> box_wf(scan_box_prefix(e, frags, i)->0),
    decreases i,
{
    if 0 < i <= frags.len() {
        lemma_scan_box_prefix_wf(e, frags, i - 1);
    }
}

proof fn lemma_records_prefix_boxes(entries: Seq<EntryV>, frags: Seq<Fragment>, i: int)
    requires
        boxes_ok(frags),
    ensures
        forall|k: int|
            0 <= k < records_prefix(entries, frags, i).len() ==> (
            #[trigger] records_prefix(entries, frags, i)[k]).width >= 0 && records_prefix(
                entries,
                frags,
                i,
            )[k].height >= 0,
    decreases i,
{
    if 0 < i <= entries.len() {
        lemma_records_prefix_boxes(entries, frags, i - 1);
        let prev = records_prefix(entries, frags, i - 1);
        match scan_box_prefix(entries[i - 1], frags, frags.len() as int) {
            Option::Some(b) => {
                lemma_scan_box_prefix_wf(entries[i - 1], frags, frags.len() as int);
                let rec = record_of(
                    entries[i - 1],
                    b,
                    scan_count_prefix(entries[i - 1], frags, frags.len() as int),
                );
                assert forall|k: int| 0 <= k < prev.push(rec).len() implies (
                #[trigger] prev.push(rec)[k]).width >= 0 && prev.push(rec)[k].height >= 0 by {
                    if k < prev.len() {
                        assert(prev.push(rec)[k] == prev[k]);
                    } else {
                        assert(prev.push(rec)[k] == rec);
                    }
                }
            },
            Option::None => {},
        }
    }
}

/// Box invariant: every record has nonnegative width and height.
pub proof fn lemma_box_invariant(root: AstNode, src: Seq<u8>, frame: FrameTree)
    requires
        node_wf(root),
    ensures
        forall|k: int|
            0 <= k < subexpressions_spec(root, src, frame).len() ==> (
            #[trigger] subexpressions_spec(root, src, frame)[k]).width >= 0
                && subexpressions_spec(root, src, frame)[k].height >= 0,
{
    lemma_collect_tree_boxes(frame, 0, 0);
    lemma_records_prefix_boxes(
        entries_of(deduped(visit_node(root, src.len() as int)), src),
        collect_tree(frame, 0, 0),
        entries_of(deduped(visit_node(root, src.len() as int)), src).len() as int,
    );
}

proof fn lemma_scan_count_nonneg(e: EntryV, frags: Seq<Fragment>, i: int)
    ensures
        scan_count_prefix(e, frags, i) >= 0,
    decreases i,
{
    if 0 < i <= frags.len() {
        lemma_scan_count_nonneg(e, frags, i - 1);
    }
}

proof fn lemma_scan_covers(e: EntryV, frags: Seq<Fragment>, i: int, j: int)
    requires
        0 <= j < i <= frags.len(),
        entry_matches(e, frags[j]),
    ensures
        scan_box_prefix(e, frags, i) is Some,
        scan_count_prefix(e, frags, i) >= 1,
        scan_box_prefix(e, frags, i)->0.x0 <= frags[j].bbox.x0,
        frags[j].bbox.x1 <= scan_box_prefix(e, frags, i)->0.x1,
        scan_box_prefix(e, frags, i)->0.y0 <= frags[j].bbox.y0,
        frags[j].bbox.y1 <= scan_box_prefix(e, frags, i)->0.y1,
    decreases i,
{
    lemma_scan_count_nonneg(e, frags, i - 1);
    if j < i - 1 {
        lemma_scan_covers(e, frags, i - 1, j);
    }
}

/// Containment law: a fragment whose byte range lies inside an entry's
/// range is merged into that entry's record: the scan yields a box, counts
/// the fragment, and the merged box covers the fragment's box. A record is,
/// by construction, exactly an entry whose scan yielded a box.
pub proof fn lemma_containment(e: EntryV, frags: Seq<Fragment>, j: int)
    requires
        0 <= j < frags.len(),
        entry_matches(e, frags[j]),
    ensures
        scan_box_prefix(e, frags, frags.len() as int) is Some,
        scan_count_prefix(e, frags, frags.len() as int) >= 1,
        scan_box_prefix(e, frags, frags.len() as int)->0.x0 <= frags[j].bbox.x0,
        frags[j].bbox.x1 <= scan_box_prefix(e, frags, frags.len() as int)->0.x1,
        scan_box_prefix(e, frags, frags.len() as int)->0.y0 <= frags[j].bbox.y0,
        frags[j].bbox.y1 <= scan_box_prefix(e, frags, frags.len() as int)->0.y1,
{
    lemma_scan_covers(e, frags, frags.len() as int, j);
}

proof fn lemma_records_prefix_first(entries: Seq<EntryV>, frags: Seq<Fragment>, i: int)
    requires
        1 <= i <= entries.len(),
        scan_box_prefix(entries[0], frags, frags.len() as int) is Some,
    ensures
        records_prefix(entries, frags, i).len() >= 1,
        records_prefix(entries, frags, i)[0] == record_of(
            entries[0],
            scan_box_prefix(entries[0], frags, frags.len() as int)->0,
            scan_count_prefix(entries[0], frags, frags.len() as int),
        ),
    decreases i,
{
    if i > 1 {
        lemma_records_prefix_first(entries, frags, i - 1);
        let prev = records_prefix(entries, frags, i - 1);
        match scan_box_prefix(entries[i - 1], frags, frags.len() as int) {
            Option::Some(b) => {
                assert(prev.push(
                    record_of(
                        entries[i - 1],
                        b,
                        scan_count_prefix(entries[i - 1], frags, frags.len() as int),
                    ),
                )[0] == prev[0]);
            },
            Option::None => {},
        }
    } else {
        let b = scan_box_prefix(entries[0], frags, frags.len() as int)->0;
        let rec = record_of(entries[0], b, scan_count_prefix(entries[0], frags, frags.len() as int));
        assert(records_prefix(entries, frags, 1) == records_prefix(entries, frags, 0).push(rec));
        assert(records_prefix(entries, frags, 0).push(rec)[0] == rec);
    }
}

/// Root inclusion: if the root's span resolves within the source and at
/// least one fragment lies inside it, the first record is the root's: its
/// full range, its text, and at least one merged fragment.
pub proof fn lemma_root_inclusion(root: AstNode, src: Seq<u8>, frame: FrameTree, j: int)
    requires
        node_wf(root),
        root.range is Some,
        root.range->0.end <= src.len(),
        0 <= j < collect_tree(frame, 0, 0).len(),
        entry_matches(entry_of_range(root.range->0, src), collect_tree(frame, 0, 0)[j]),
    ensures
        subexpressions_spec(root, src, frame).len() >= 1,
        subexpressions_spec(root, src, frame)[0].start == root.range->0.start as int,
        subexpressions_spec(root, src, frame)[0].end == root.range->0.end as int,
        subexpressions_spec(root, src, frame)[0].text == src.subrange(
            root.range->0.start as int,
            root.range->0.end as int,
        ),
        subexpressions_spec(root, src, frame)[0].lines >= 1,
{
    let len = src.len() as int;
    lemma_root_range_first(root, len);
    let dd = deduped(visit_node(root, len));
    let es = entries_of(dd, src);
    assert(es[0] == entry_of_range(dd[0], src));
    let frags = collect_tree(frame, 0, 0);
    lemma_containment(es[0], frags, j);
    lemma_records_prefix_first(es, frags, es.len() as int);
}

proof fn lemma_scan_some_iff_count(e: EntryV, frags: Seq<Fragment>, i: int)
    ensures
        scan_box_prefix(e, frags, i) is Some <==> scan_count_prefix(e, frags, i) >= 1,
    decreases i,
{
    if 0 < i <= frags.len() {
        lemma_scan_some_iff_count(e, frags, i - 1);
        lemma_scan_count_nonneg(e, frags, i - 1);
    }
}

proof fn lemma_records_prefix_lines(entries: Seq<EntryV>, frags: Seq<Fragment>, i: int)
    ensures
        forall|k: int|
            0 <= k < records_prefix(entries, frags, i).len() ==> (
            #[trigger] records_prefix(entries, frags, i)[k]).lines >= 1,
    decreases i,
{
    if 0 < i <= entries.len() {
        lemma_records_prefix_lines(entries, frags, i - 1);
        let prev = records_prefix(entries, frags, i - 1);
        match scan_box_prefix(entries[i - 1], frags, frags.len() as int) {
            Option::Some(b) => {
                lemma_scan_some_iff_count(entries[i - 1], frags, frags.len() as int);
                let rec = record_of(
                    entries[i - 1],
                    b,
                    scan_count_prefix(entries[i - 1], frags, frags.len() as int),
                );
                assert forall|k: int| 0 <= k < prev.push(rec).len() implies (
                #[trigger] prev.push(rec)[k]).lines >= 1 by {
                    if k < prev.len() {
                        assert(prev.push(rec)[k] == prev[k]);
                    } else {
                        assert(prev.push(rec)[k] == rec);
                    }
                }
            },
            Option::None => {},
        }
    }
}

/// Every record merged at least one fragment: an entry containing no
/// fragment produces no record, never a zero-count placeholder.
pub proof fn lemma_glyph_lines_positive(entries: Seq<EntryV>, frags: Seq<Fragment>)
    ensures
        forall|k: int|
            0 <= k < records_spec(entries, frags).len() ==> (
            #[trigger] records_spec(entries, frags)[k]).lines >= 1,
{
    lemma_records_prefix_lines(entries, frags, entries.len() as int);
}

/// Determinism: the records are a function of the tree, the source bytes
/// and the frame alone; equal inputs give equal records.
pub proof fn lemma_deterministic(
    root1: AstNode,
    root2: AstNode,
    src1: Seq<u8>,
    src2: Seq<u8>,
    frame1: FrameTree,
    frame2: FrameTree,
)
    requires
        root1 == root2,
        src1 == src2,
        frame1 == frame2,
    ensures
        subexpressions_spec(root1, src1, frame1) == subexpressions_spec(root2, src2, frame2),
{
}

} // verus!
