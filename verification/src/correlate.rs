//! The correlator: for each extracted entry, in order, merges the bounding
//! boxes of all fragments whose byte range falls inside the entry's range
//! and counts them; entries containing no fragment produce no record.

use vstd::prelude::*;
use crate::ast::{
    AstNode, EntryV, SpanEntry, deduped, entries_of, entry_view, extract_ast_spans, node_wf,
    view_entries, visit_node,
};
use crate::frame::{Fragment, FrameTree, collect_tree, get_frame_box_spans};
use crate::geom::{BoundingBox, merge_spec, sat_sub, sub_sat};
use crate::span::{range_contains, range_contains_exec};

verus! {

/// The containment test of the correlation step: the fragment's range lies
/// fully inside the entry's range (the two may be equal). On an entry made
/// from a byte range this coincides with `range_contains`.
pub open spec fn entry_matches(e: EntryV, f: Fragment) -> bool {
    f.range.start as int >= e.start && f.range.end as int <= e.end
}

/// The merged box of the matching fragments among the first `i`, or `None`
/// when none of them matches.
pub open spec fn scan_box_prefix(e: EntryV, frags: Seq<Fragment>, i: int) -> Option<BoundingBox>
    decreases i,
{
    if 0 < i <= frags.len() {
        let prev = scan_box_prefix(e, frags, i - 1);
        if entry_matches(e, frags[i - 1]) {
            match prev {
                Option::None => Option::Some(frags[i - 1].bbox),
                Option::Some(b) => Option::Some(merge_spec(b, frags[i - 1].bbox)),
            }
        } else {
            prev
        }
    } else {
        Option::None
    }
}

/// How many of the first `i` fragments match the entry.
pub open spec fn scan_count_prefix(e: EntryV, frags: Seq<Fragment>, i: int) -> int
    decreases i,
{
    if 0 < i <= frags.len() {
        scan_count_prefix(e, frags, i - 1) + if entry_matches(e, frags[i - 1]) {
            1int
        } else {
            0int
        }
    } else {
        0
    }
}

/// Spec-level image of one produced record.
pub struct RecordV {
    pub text: Seq<u8>,
    pub x: int,
    pub y: int,
    pub width: int,
    pub height: int,
    pub start: int,
    pub end: int,
    pub lines: int,
}

/// The record an entry produces from its merged box and match count.
pub open spec fn record_of(e: EntryV, b: BoundingBox, n: int) -> RecordV {
    RecordV {
        text: e.text,
        x: b.x0 as int,
        y: b.y0 as int,
        width: sat_sub(b.x1 as int, b.x0 as int),
        height: sat_sub(b.y1 as int, b.y0 as int),
        start: e.start,
        end: e.end,
        lines: n,
    }
}

/// The records of the first `i` entries, in entry order; an entry whose
/// scan found no fragment contributes nothing.
pub open spec fn records_prefix(entries: Seq<EntryV>, frags: Seq<Fragment>, i: int) -> Seq<
    RecordV,
>
    decreases i,
{
    if 0 < i <= entries.len() {
        let prev = records_prefix(entries, frags, i - 1);
        let e = entries[i - 1];
        match scan_box_prefix(e, frags, frags.len() as int) {
            Option::Some(b) => prev.push(
                record_of(e, b, scan_count_prefix(e, frags, frags.len() as int)),
            ),
            Option::None => prev,
        }
    } else {
        Seq::empty()
    }
}

pub open spec fn records_spec(entries: Seq<EntryV>, frags: Seq<Fragment>) -> Seq<RecordV> {
    records_prefix(entries, frags, entries.len() as int)
}

/// The externally visible result for one subexpression: the source bytes it
/// covers, its merged box as position and extent, its byte range, and how
/// many fragments were merged into it.
pub struct SubexpressionRecord {
    pub text: Vec<u8>,
    pub x: i64,
    pub y: i64,
    pub width: i64,
    pub height: i64,
    pub source_start: usize,
    pub source_end: usize,
    pub glyph_lines: usize,
}

pub open spec fn record_view(r: SubexpressionRecord) -> RecordV {
    RecordV {
        text: r.text@,
        x: r.x as int,
        y: r.y as int,
        width: r.width as int,
        height: r.height as int,
        start: r.source_start as int,
        end: r.source_end as int,
        lines: r.glyph_lines as int,
    }
}

pub open spec fn view_records(s: Seq<SubexpressionRecord>) -> Seq<RecordV> {
    s.map_values(|r: SubexpressionRecord| record_view(r))
}

fn clone_bytes(src: &Vec<u8>) -> (r: Vec<u8>)
    ensures
        r@ == src@,
{
    let mut t: Vec<u8> = Vec::new();
    let mut k: usize = 0;
    while k < src.len()
        invariant
            k <= src@.len(),
            t@ == src@.take(k as int),
        decreases src@.len() - k,
    {
        t.push(src[k]);
        proof {
            assert(t@ =~= src@.take(k as int + 1));
        }
        k += 1;
    }
    proof {
        assert(src@.take(src@.len() as int) =~= src@);
    }
    t
}

/// For each entry in order, scans all fragments, merges the boxes of those
/// whose range the entry's range contains, and emits one record; entries
/// with no matching fragment are dropped.
pub fn correlate(entries: &Vec<SpanEntry>, frags: &Vec<Fragment>) -> (r: Vec<SubexpressionRecord>)
    ensures
        view_records(r@) == records_spec(view_entries(entries@), frags@),
{
    let mut out: Vec<SubexpressionRecord> = Vec::new();
    let mut i: usize = 0;
    while i < entries.len()
        invariant
            i <= entries@.len(),
            out@.len() == records_prefix(view_entries(entries@), frags@, i as int).len(),
            forall|k: int|
                0 <= k < out@.len() ==> record_view(#[trigger] out@[k]) == records_prefix(
                    view_entries(entries@),
                    frags@,
                    i as int,
                )[k],
        decreases entries@.len() - i,
    {
        let e = &entries[i];
        let ghost ev = entry_view(entries@[i as int]);
        let mut bb: Option<BoundingBox> = None;
        let mut count: usize = 0;
        let mut j: usize = 0;
        while j < frags.len()
            invariant
                j <= frags@.len(),
                count <= j,
                i < entries@.len(),
                *e == entries@[i as int],
                ev == entry_view(entries@[i as int]),
                bb == scan_box_prefix(ev, frags@, j as int),
                count as int == scan_count_prefix(ev, frags@, j as int),
            decreases frags@.len() - j,
        {
            let f = &frags[j];
            proof {
                assert(range_contains(e.range, f.range) == entry_matches(ev, frags@[j as int]));
            }
            if range_contains_exec(&e.range, &f.range) {
                bb = match bb {
                    None => Some(f.bbox),
                    Some(p) => Some(p.merge(f.bbox)),
                };
                count += 1;
            }
            j += 1;
        }
        match bb {
            Some(b) => {
                out.push(
                    SubexpressionRecord {
                        text: clone_bytes(&e.text),
                        x: b.x0,
                        y: b.y0,
                        width: sub_sat(b.x1, b.x0),
                        height: sub_sat(b.y1, b.y0),
                        source_start: e.range.start,
                        source_end: e.range.end,
                        glyph_lines: count,
                    },
                );
                proof {
                    assert(record_view(out@[out@.len() - 1]) == record_of(
                        ev,
                        b,
                        scan_count_prefix(ev, frags@, frags@.len() as int),
                    ));
                }
            },
            None => {},
        }
        i += 1;
    }
    proof {
        assert(view_records(out@) =~= records_spec(view_entries(entries@), frags@));
    }
    out
}

/// The records of a whole compilation, as a function of the tree, the
/// source bytes and the frame alone.
pub open spec fn subexpressions_spec(root: AstNode, src: Seq<u8>, frame: FrameTree) -> Seq<
    RecordV,
> {
    records_spec(
        entries_of(deduped(visit_node(root, src.len() as int)), src),
        collect_tree(frame, 0, 0),
    )
}

/// Extracts the deduplicated span entries of the tree, collects the frame's
/// fragments, and correlates the two into subexpression records.
pub fn extract_subexpressions(root: &AstNode, src: &Vec<u8>, frame: &FrameTree) -> (r: Vec<
    SubexpressionRecord,
>)
    requires
        node_wf(*root),
    ensures
        view_records(r@) == subexpressions_spec(*root, src@, *frame),
{
    let entries = extract_ast_spans(root, src);
    let mut frags: Vec<Fragment> = Vec::new();
    get_frame_box_spans(frame, 0, 0, &mut frags);
    proof {
        assert(frags@ =~= collect_tree(*frame, 0, 0));
    }
    correlate(&entries, &frags)
}

} // verus!
