//! The parsed expression tree, modeled with every span already resolved, and
//! the extractor that enumerates each node's byte range in visitation order,
//! root first, deduplicated by range.

use vstd::prelude::*;
use crate::span::{ByteRange, range_wf};

verus! {

/// One node of the parsed math expression tree. `range` is the node's span
/// resolved to a byte range, or `None` where the span carries no position
/// information (a resolution miss is routine, not an error).
pub struct AstNode {
    pub range: Option<ByteRange>,
    pub kind: AstKind,
}

/// The structurally distinct expression kinds, one arm each. Every arm
/// records its own span; the arms below say what else is visited.
pub enum AstKind {
    /// A math sequence: visits every child expression.
    MathSeq(Vec<AstNode>),
    /// A fraction: visits numerator, then denominator.
    Frac { num: Box<AstNode>, denom: Box<AstNode> },
    /// Sub/superscript attachment: base, then the optional bottom and top
    /// attachments, each independently optional.
    Attach { base: Box<AstNode>, bottom: Option<Box<AstNode>>, top: Option<Box<AstNode>> },
    /// A root extraction: visits the radicand only; a numeric index operand
    /// is not an expression and is skipped.
    Root { radicand: Box<AstNode> },
    /// A delimited group: visits the body's child expressions.
    Delimited(Vec<AstNode>),
    /// A call: visits the callee, then each positional argument.
    Call { callee: Box<AstNode>, args: Vec<CallArg> },
    /// A parenthesized expression: visits the inner expression.
    Parenthesized(Box<AstNode>),
    /// An array literal: visits each element.
    ArrayLit(Vec<ArrayEntry>),
    /// A dictionary literal: visits each entry's expressions.
    DictLit(Vec<DictEntry>),
    /// A content block: visits each expression inside.
    ContentBlock(Vec<AstNode>),
    /// A binary operator: visits both operands.
    Binary { lhs: Box<AstNode>, rhs: Box<AstNode> },
    /// A unary operator: visits the operand.
    Unary(Box<AstNode>),
    /// A terminal node (identifier, literal, text, shorthand, alignment
    /// point, primes): its own span suffices, no recursion.
    Leaf,
    /// Any kind not otherwise modeled: its own span is still recorded, but
    /// nothing is visited below it. This keeps the walk total.
    Other,
}

/// One argument of a call; only positional arguments carry an expression
/// the walk visits.
pub enum CallArg {
    Pos(AstNode),
    NonPos,
}

/// One element of an array literal.
pub enum ArrayEntry {
    Pos(AstNode),
    Spread(AstNode),
}

/// One entry of a dictionary literal. A named entry's key is a plain
/// identifier, not an expression; a keyed entry's key is an expression.
pub enum DictEntry {
    Named { value: AstNode },
    Keyed { key: AstNode, value: AstNode },
    Spread { value: AstNode },
}

pub open spec fn opt_range_wf(r: Option<ByteRange>) -> bool {
    match r {
        Some(rr) => range_wf(rr),
        None => true,
    }
}

/// Every resolved range in the tree is well-formed (`start <= end`).
pub open spec fn node_wf(e: AstNode) -> bool
    decreases e,
{
    opt_range_wf(e.range) && kind_wf(e.kind)
}

pub open spec fn kind_wf(k: AstKind) -> bool
    decreases k,
{
    match k {
        AstKind::MathSeq(cs) => forall|i: int| 0 <= i < cs@.len() ==> node_wf(#[trigger] cs@[i]),
        AstKind::Frac { num, denom } => node_wf(*num) && node_wf(*denom),
        AstKind::Attach { base, bottom, top } => node_wf(*base) && (match bottom {
            Some(b) => node_wf(*b),
            None => true,
        }) && (match top {
            Some(t) => node_wf(*t),
            None => true,
        }),
        AstKind::Root { radicand } => node_wf(*radicand),
        AstKind::Delimited(cs) => forall|i: int| 0 <= i < cs@.len() ==> node_wf(#[trigger] cs@[i]),
        AstKind::Call { callee, args } => node_wf(*callee) && forall|i: int|
            0 <= i < args@.len() ==> arg_wf(#[trigger] args@[i]),
        AstKind::Parenthesized(inner) => node_wf(*inner),
        AstKind::ArrayLit(es) => forall|i: int| 0 <= i < es@.len() ==> array_entry_wf(
            #[trigger] es@[i],
        ),
        AstKind::DictLit(es) => forall|i: int| 0 <= i < es@.len() ==> dict_entry_wf(
            #[trigger] es@[i],
        ),
        AstKind::ContentBlock(cs) => forall|i: int| 0 <= i < cs@.len() ==> node_wf(
            #[trigger] cs@[i],
        ),
        AstKind::Binary { lhs, rhs } => node_wf(*lhs) && node_wf(*rhs),
        AstKind::Unary(inner) => node_wf(*inner),
        AstKind::Leaf => true,
        AstKind::Other => true,
    }
}

pub open spec fn arg_wf(a: CallArg) -> bool
    decreases a,
{
    match a {
        CallArg::Pos(e) => node_wf(e),
        CallArg::NonPos => true,
    }
}

pub open spec fn array_entry_wf(a: ArrayEntry) -> bool
    decreases a,
{
    match a {
        ArrayEntry::Pos(e) => node_wf(e),
        ArrayEntry::Spread(e) => node_wf(e),
    }
}

pub open spec fn dict_entry_wf(d: DictEntry) -> bool
    decreases d,
{
    match d {
        DictEntry::Named { value } => node_wf(value),
        DictEntry::Keyed { key, value } => node_wf(key) && node_wf(value),
        DictEntry::Spread { value } => node_wf(value),
    }
}

/// The node's own contribution: its resolved range, unless the span did not
/// resolve or the range's end runs past the source length (a defensive
/// guard against span/source mismatches).
pub open spec fn own_range(e: AstNode, len: int) -> Seq<ByteRange> {
    match e.range {
        Some(r) => if r.end <= len {
            seq![r]
        } else {
            Seq::empty()
        },
        None => Seq::empty(),
    }
}

/// All ranges the walk records under `e`, in visitation order: the node's
/// own range first, then its children's, per the node's kind.
pub open spec fn visit_node(e: AstNode, len: int) -> Seq<ByteRange>
    decreases e, 0int,
{
    own_range(e, len) + visit_kind(e.kind, len)
}

pub open spec fn visit_kind(k: AstKind, len: int) -> Seq<ByteRange>
    decreases k, 0int,
{
    match k {
        AstKind::MathSeq(cs) => visit_list_prefix(cs@, len, cs@.len() as int),
        AstKind::Frac { num, denom } => visit_node(*num, len) + visit_node(*denom, len),
        AstKind::Attach { base, bottom, top } => visit_node(*base, len) + (match bottom {
            Some(b) => visit_node(*b, len),
            None => Seq::empty(),
        }) + (match top {
            Some(t) => visit_node(*t, len),
            None => Seq::empty(),
        }),
        AstKind::Root { radicand } => visit_node(*radicand, len),
        AstKind::Delimited(cs) => visit_list_prefix(cs@, len, cs@.len() as int),
        AstKind::Call { callee, args } => visit_node(*callee, len) + visit_args_prefix(
            args@,
            len,
            args@.len() as int,
        ),
        AstKind::Parenthesized(inner) => visit_node(*inner, len),
        AstKind::ArrayLit(es) => visit_array_prefix(es@, len, es@.len() as int),
        AstKind::DictLit(es) => visit_dict_prefix(es@, len, es@.len() as int),
        AstKind::ContentBlock(cs) => visit_list_prefix(cs@, len, cs@.len() as int),
        AstKind::Binary { lhs, rhs } => visit_node(*lhs, len) + visit_node(*rhs, len),
        AstKind::Unary(inner) => visit_node(*inner, len),
        AstKind::Leaf => Seq::empty(),
        AstKind::Other => Seq::empty(),
    }
}

/// Ranges of the first `i` children, in order.
pub open spec fn visit_list_prefix(cs: Seq<AstNode>, len: int, i: int) -> Seq<ByteRange>
    decreases cs, i,
{
    if 0 < i <= cs.len() {
        visit_list_prefix(cs, len, i - 1) + visit_node(cs[i - 1], len)
    } else {
        Seq::empty()
    }
}

pub open spec fn arg_ranges(a: CallArg, len: int) -> Seq<ByteRange>
    decreases a, 0int,
{
    match a {
        CallArg::Pos(e) => visit_node(e, len),
        CallArg::NonPos => Seq::empty(),
    }
}

pub open spec fn visit_args_prefix(args: Seq<CallArg>, len: int, i: int) -> Seq<ByteRange>
    decreases args, i,
{
    if 0 < i <= args.len() {
        visit_args_prefix(args, len, i - 1) + arg_ranges(args[i - 1], len)
    } else {
        Seq::empty()
    }
}

pub open spec fn array_entry_ranges(a: ArrayEntry, len: int) -> Seq<ByteRange>
    decreases a, 0int,
{
    match a {
        ArrayEntry::Pos(e) => visit_node(e, len),
        ArrayEntry::Spread(e) => visit_node(e, len),
    }
}

pub open spec fn visit_array_prefix(es: Seq<ArrayEntry>, len: int, i: int) -> Seq<ByteRange>
    decreases es, i,
{
    if 0 < i <= es.len() {
        visit_array_prefix(es, len, i - 1) + array_entry_ranges(es[i - 1], len)
    } else {
        Seq::empty()
    }
}

pub open spec fn dict_entry_ranges(d: DictEntry, len: int) -> Seq<ByteRange>
    decreases d, 0int,
{
    match d {
        DictEntry::Named { value } => visit_node(value, len),
        DictEntry::Keyed { key, value } => visit_node(key, len) + visit_node(value, len),
        DictEntry::Spread { value } => visit_node(value, len),
    }
}

pub open spec fn visit_dict_prefix(es: Seq<DictEntry>, len: int, i: int) -> Seq<ByteRange>
    decreases es, i,
{
    if 0 < i <= es.len() {
        visit_dict_prefix(es, len, i - 1) + dict_entry_ranges(es[i - 1], len)
    } else {
        Seq::empty()
    }
}

/// Records the ranges of `e` and everything below it, appending to `out` in
/// visitation order.
pub fn collect_expr_ranges(e: &AstNode, src_len: usize, out: &mut Vec<ByteRange>)
    ensures
        final(out)@ == old(out)@ + visit_node(*e, src_len as int),
    decreases *e, 0int,
{
    let ghost out0 = out@;
    match e.range {
        Some(r) => {
            if r.end <= src_len {
                out.push(r);
            }
        },
        None => {},
    }
    proof {
        assert(out@ == out0 + own_range(*e, src_len as int));
    }
    match &e.kind {
        AstKind::MathSeq(cs) => {
            collect_list_ranges(cs, src_len, out);
        },
        AstKind::Frac { num, denom } => {
            collect_expr_ranges(num, src_len, out);
            collect_expr_ranges(denom, src_len, out);
        },
        AstKind::Attach { base, bottom, top } => {
            collect_expr_ranges(base, src_len, out);
            match bottom {
                Some(b) => collect_expr_ranges(b, src_len, out),
                None => {},
            }
            match top {
                Some(t) => collect_expr_ranges(t, src_len, out),
                None => {},
            }
        },
        AstKind::Root { radicand } => {
            collect_expr_ranges(radicand, src_len, out);
        },
        AstKind::Delimited(cs) => {
            collect_list_ranges(cs, src_len, out);
        },
        AstKind::Call { callee, args } => {
            collect_expr_ranges(callee, src_len, out);
            collect_args_ranges(args, src_len, out);
        },
        AstKind::Parenthesized(inner) => {
            collect_expr_ranges(inner, src_len, out);
        },
        AstKind::ArrayLit(es) => {
            collect_array_ranges(es, src_len, out);
        },
        AstKind::DictLit(es) => {
            collect_dict_ranges(es, src_len, out);
        },
        AstKind::ContentBlock(cs) => {
            collect_list_ranges(cs, src_len, out);
        },
        AstKind::Binary { lhs, rhs } => {
            collect_expr_ranges(lhs, src_len, out);
            collect_expr_ranges(rhs, src_len, out);
        },
        AstKind::Unary(inner) => {
            collect_expr_ranges(inner, src_len, out);
        },
        AstKind::Leaf => {},
        AstKind::Other => {},
    }
    proof {
        assert(out@ =~= out0 + visit_node(*e, src_len as int));
    }
}

pub fn collect_list_ranges(cs: &Vec<AstNode>, src_len: usize, out: &mut Vec<ByteRange>)
    ensures
        final(out)@ == old(out)@ + visit_list_prefix(cs@, src_len as int, cs@.len() as int),
    decreases cs@, 0int,
{
    let ghost out0 = out@;
    let n = cs.len();
    let mut i: usize = 0;
    while i < n
        invariant
            i <= n,
            n == cs@.len(),
            out@ == out0 + visit_list_prefix(cs@, src_len as int, i as int),
        decreases n - i,
    {
        collect_expr_ranges(&cs[i], src_len, out);
        proof {
            assert(out@ =~= out0 + visit_list_prefix(cs@, src_len as int, i + 1));
        }
        i += 1;
    }
}

pub fn collect_args_ranges(args: &Vec<CallArg>, src_len: usize, out: &mut Vec<ByteRange>)
    ensures
        final(out)@ == old(out)@ + visit_args_prefix(args@, src_len as int, args@.len() as int),
    decreases args@, 0int,
{
    let ghost out0 = out@;
    let n = args.len();
    let mut i: usize = 0;
    while i < n
        invariant
            i <= n,
            n == args@.len(),
            out@ == out0 + visit_args_prefix(args@, src_len as int, i as int),
        decreases n - i,
    {
        let a = &args[i];
        match a {
            CallArg::Pos(e) => {
                collect_expr_ranges(e, src_len, out);
                proof {
                    assert(arg_ranges(args@[i as int], src_len as int) == visit_node(*e, src_len as int));
                }
            },
            CallArg::NonPos => {
                proof {
                    assert(arg_ranges(args@[i as int], src_len as int) == Seq::<ByteRange>::empty());
                }
            },
        }
        proof {
            assert(out@ =~= out0 + visit_args_prefix(args@, src_len as int, i + 1));
        }
        i += 1;
    }
}

pub fn collect_array_ranges(es: &Vec<ArrayEntry>, src_len: usize, out: &mut Vec<ByteRange>)
    ensures
        final(out)@ == old(out)@ + visit_array_prefix(es@, src_len as int, es@.len() as int),
    decreases es@, 0int,
{
    let ghost out0 = out@;
    let n = es.len();
    let mut i: usize = 0;
    while i < n
        invariant
            i <= n,
            n == es@.len(),
            out@ == out0 + visit_array_prefix(es@, src_len as int, i as int),
        decreases n - i,
    {
        let a = &es[i];
        match a {
            ArrayEntry::Pos(e) => {
                collect_expr_ranges(e, src_len, out);
                proof {
                    assert(array_entry_ranges(es@[i as int], src_len as int) == visit_node(*e, src_len as int));
                }
            },
            ArrayEntry::Spread(e) => {
                collect_expr_ranges(e, src_len, out);
                proof {
                    assert(array_entry_ranges(es@[i as int], src_len as int) == visit_node(*e, src_len as int));
                }
            },
        }
        proof {
            assert(out@ =~= out0 + visit_array_prefix(es@, src_len as int, i + 1));
        }
        i += 1;
    }
}

pub fn collect_dict_ranges(es: &Vec<DictEntry>, src_len: usize, out: &mut Vec<ByteRange>)
    ensures
        final(out)@ == old(out)@ + visit_dict_prefix(es@, src_len as int, es@.len() as int),
    decreases es@, 0int,
{
    let ghost out0 = out@;
    let n = es.len();
    let mut i: usize = 0;
    while i < n
        invariant
            i <= n,
            n == es@.len(),
            out@ == out0 + visit_dict_prefix(es@, src_len as int, i as int),
        decreases n - i,
    {
        let a = &es[i];
        match a {
            DictEntry::Named { value } => {
                collect_expr_ranges(value, src_len, out);
                proof {
                    assert(dict_entry_ranges(es@[i as int], src_len as int) == visit_node(*value, src_len as int));
                }
            },
            DictEntry::Keyed { key, value } => {
                collect_expr_ranges(key, src_len, out);
                collect_expr_ranges(value, src_len, out);
                proof {
                    assert(dict_entry_ranges(es@[i as int], src_len as int) == visit_node(*key, src_len as int) + visit_node(*value, src_len as int));
                }
            },
            DictEntry::Spread { value } => {
                collect_expr_ranges(value, src_len, out);
                proof {
                    assert(dict_entry_ranges(es@[i as int], src_len as int) == visit_node(*value, src_len as int));
                }
            },
        }
        proof {
            assert(out@ =~= out0 + visit_dict_prefix(es@, src_len as int, i + 1));
        }
        i += 1;
    }
}

/// True of a result list in which `r` already occurs.
pub open spec fn seq_has_range(s: Seq<ByteRange>, r: ByteRange) -> bool {
    exists|k: int| 0 <= k < s.len() && s[k] == r
}

/// First-occurrence-wins deduplication of the first `i` ranges.
pub open spec fn dedup_prefix(s: Seq<ByteRange>, i: int) -> Seq<ByteRange>
    decreases i,
{
    if 0 < i <= s.len() {
        let d = dedup_prefix(s, i - 1);
        if seq_has_range(d, s[i - 1]) {
            d
        } else {
            d.push(s[i - 1])
        }
    } else {
        Seq::empty()
    }
}

pub open spec fn deduped(s: Seq<ByteRange>) -> Seq<ByteRange> {
    dedup_prefix(s, s.len() as int)
}

/// Keeps the first occurrence of every range, dropping later duplicates.
pub fn dedup_ranges(rs: &Vec<ByteRange>) -> (r: Vec<ByteRange>)
    ensures
        r@ == deduped(rs@),
{
    let mut out: Vec<ByteRange> = Vec::new();
    let mut i: usize = 0;
    while i < rs.len()
        invariant
            i <= rs@.len(),
            out@ == dedup_prefix(rs@, i as int),
        decreases rs@.len() - i,
    {
        let cur = rs[i];
        let mut seen = false;
        let mut k: usize = 0;
        while k < out.len()
            invariant
                k <= out@.len(),
                out@ == dedup_prefix(rs@, i as int),
                i < rs@.len(),
                cur == rs@[i as int],
                seen <==> exists|j: int| 0 <= j < k && out@[j] == cur,
            decreases out@.len() - k,
        {
            if out[k] == cur {
                seen = true;
            }
            k += 1;
        }
        if !seen {
            out.push(cur);
        }
        i += 1;
    }
    out
}

/// Every range in `s` is well-formed and stops at the source length.
pub open spec fn ranges_ok(s: Seq<ByteRange>, len: int) -> bool {
    forall|i: int| 0 <= i < s.len() ==> range_wf(#[trigger] s[i]) && s[i].end <= len
}

proof fn lemma_ranges_ok_concat(a: Seq<ByteRange>, b: Seq<ByteRange>, len: int)
    requires
        ranges_ok(a, len),
        ranges_ok(b, len),
    ensures
        ranges_ok(a + b, len),
{
    assert forall|i: int| 0 <= i < (a + b).len() implies range_wf(#[trigger] (a + b)[i]) && (a
        + b)[i].end <= len by {
        if i < a.len() {
            assert((a + b)[i] == a[i]);
        } else {
            assert((a + b)[i] == b[i - a.len()]);
        }
    }
}

/// In a well-formed tree, every recorded range is well-formed and stops at
/// the source length.
pub proof fn lemma_visit_node_ok(e: AstNode, len: int)
    requires
        node_wf(e),
    ensures
        ranges_ok(visit_node(e, len), len),
    decreases e, 0int,
{
    lemma_visit_kind_ok(e.kind, len);
    lemma_ranges_ok_concat(own_range(e, len), visit_kind(e.kind, len), len);
}

proof fn lemma_visit_kind_ok(k: AstKind, len: int)
    requires
        kind_wf(k),
    ensures
        ranges_ok(visit_kind(k, len), len),
    decreases k, 0int,
{
    match k {
        AstKind::MathSeq(cs) => lemma_visit_list_prefix_ok(cs@, len, cs@.len() as int),
        AstKind::Frac { num, denom } => {
            lemma_visit_node_ok(*num, len);
            lemma_visit_node_ok(*denom, len);
            lemma_ranges_ok_concat(visit_node(*num, len), visit_node(*denom, len), len);
        },
        AstKind::Attach { base, bottom, top } => {
            lemma_visit_node_ok(*base, len);
            let bs = match bottom {
                Some(b) => visit_node(*b, len),
                None => Seq::empty(),
            };
            let ts = match top {
                Some(t) => visit_node(*t, len),
                None => Seq::empty(),
            };
            match bottom {
                Some(b) => lemma_visit_node_ok(*b, len),
                None => assert(ranges_ok(bs, len)),
            }
            match top {
                Some(t) => lemma_visit_node_ok(*t, len),
                None => assert(ranges_ok(ts, len)),
            }
            lemma_ranges_ok_concat(visit_node(*base, len), bs, len);
            lemma_ranges_ok_concat(visit_node(*base, len) + bs, ts, len);
        },
        AstKind::Root { radicand } => lemma_visit_node_ok(*radicand, len),
        AstKind::Delimited(cs) => lemma_visit_list_prefix_ok(cs@, len, cs@.len() as int),
        AstKind::Call { callee, args } => {
            lemma_visit_node_ok(*callee, len);
            lemma_visit_args_prefix_ok(args@, len, args@.len() as int);
            lemma_ranges_ok_concat(
                visit_node(*callee, len),
                visit_args_prefix(args@, len, args@.len() as int),
                len,
            );
        },
        AstKind::Parenthesized(inner) => lemma_visit_node_ok(*inner, len),
        AstKind::ArrayLit(es) => lemma_visit_array_prefix_ok(es@, len, es@.len() as int),
        AstKind::DictLit(es) => lemma_visit_dict_prefix_ok(es@, len, es@.len() as int),
        AstKind::ContentBlock(cs) => lemma_visit_list_prefix_ok(cs@, len, cs@.len() as int),
        AstKind::Binary { lhs, rhs } => {
            lemma_visit_node_ok(*lhs, len);
            lemma_visit_node_ok(*rhs, len);
            lemma_ranges_ok_concat(visit_node(*lhs, len), visit_node(*rhs, len), len);
        },
        AstKind::Unary(inner) => lemma_visit_node_ok(*inner, len),
        AstKind::Leaf => {},
        AstKind::Other => {},
    }
}

proof fn lemma_visit_list_prefix_ok(cs: Seq<AstNode>, len: int, i: int)
    requires
        forall|j: int| 0 <= j < cs.len() ==> node_wf(#[trigger] cs[j]),
    ensures
        ranges_ok(visit_list_prefix(cs, len, i), len),
    decreases cs, i,
{
    if 0 < i <= cs.len() {
        lemma_visit_list_prefix_ok(cs, len, i - 1);
        lemma_visit_node_ok(cs[i - 1], len);
        lemma_ranges_ok_concat(visit_list_prefix(cs, len, i - 1), visit_node(cs[i - 1], len), len);
    }
}

proof fn lemma_visit_args_prefix_ok(args: Seq<CallArg>, len: int, i: int)
    requires
        forall|j: int| 0 <= j < args.len() ==> arg_wf(#[trigger] args[j]),
    ensures
        ranges_ok(visit_args_prefix(args, len, i), len),
    decreases args, i,
{
    if 0 < i <= args.len() {
        lemma_visit_args_prefix_ok(args, len, i - 1);
        match args[i - 1] {
            CallArg::Pos(e) => lemma_visit_node_ok(e, len),
            CallArg::NonPos => {},
        }
        lemma_ranges_ok_concat(visit_args_prefix(args, len, i - 1), arg_ranges(args[i - 1], len), len);
    }
}

proof fn lemma_visit_array_prefix_ok(es: Seq<ArrayEntry>, len: int, i: int)
    requires
        forall|j: int| 0 <= j < es.len() ==> array_entry_wf(#[trigger] es[j]),
    ensures
        ranges_ok(visit_array_prefix(es, len, i), len),
    decreases es, i,
{
    if 0 < i <= es.len() {
        lemma_visit_array_prefix_ok(es, len, i - 1);
        match es[i - 1] {
            ArrayEntry::Pos(e) => lemma_visit_node_ok(e, len),
            ArrayEntry::Spread(e) => lemma_visit_node_ok(e, len),
        }
        lemma_ranges_ok_concat(
            visit_array_prefix(es, len, i - 1),
            array_entry_ranges(es[i - 1], len),
            len,
        );
    }
}

proof fn lemma_visit_dict_prefix_ok(es: Seq<DictEntry>, len: int, i: int)
    requires
        forall|j: int| 0 <= j < es.len() ==> dict_entry_wf(#[trigger] es[j]),
    ensures
        ranges_ok(visit_dict_prefix(es, len, i), len),
    decreases es, i,
{
    if 0 < i <= es.len() {
        lemma_visit_dict_prefix_ok(es, len, i - 1);
        match es[i - 1] {
            DictEntry::Named { value } => lemma_visit_node_ok(value, len),
            DictEntry::Keyed { key, value } => {
                lemma_visit_node_ok(key, len);
                lemma_visit_node_ok(value, len);
                lemma_ranges_ok_concat(visit_node(key, len), visit_node(value, len), len);
            },
            DictEntry::Spread { value } => lemma_visit_node_ok(value, len),
        }
        lemma_ranges_ok_concat(
            visit_dict_prefix(es, len, i - 1),
            dict_entry_ranges(es[i - 1], len),
            len,
        );
    }
}

/// Every deduplicated range occurs in the list it was drawn from.
proof fn lemma_dedup_prefix_subset(s: Seq<ByteRange>, i: int)
    ensures
        forall|k: int| 0 <= k < dedup_prefix(s, i).len() ==> seq_has_range(
            s,
            #[trigger] dedup_prefix(s, i)[k],
        ),
    decreases i,
{
    if 0 < i <= s.len() {
        lemma_dedup_prefix_subset(s, i - 1);
        let d = dedup_prefix(s, i - 1);
        if !seq_has_range(d, s[i - 1]) {
            assert forall|k: int| 0 <= k < d.push(s[i - 1]).len() implies seq_has_range(
                s,
                #[trigger] d.push(s[i - 1])[k],
            ) by {
                if k < d.len() {
                    assert(d.push(s[i - 1])[k] == d[k]);
                } else {
                    assert(d.push(s[i - 1])[k] == s[i - 1]);
                }
            }
        }
    }
}

pub proof fn lemma_dedup_ok(s: Seq<ByteRange>, len: int)
    requires
        ranges_ok(s, len),
    ensures
        ranges_ok(deduped(s), len),
{
    lemma_dedup_prefix_subset(s, s.len() as int);
    assert forall|k: int| 0 <= k < deduped(s).len() implies range_wf(#[trigger] deduped(s)[k])
        && deduped(s)[k].end <= len by {
        let j = choose|j: int| 0 <= j < s.len() && s[j] == deduped(s)[k];
        assert(range_wf(s[j]) && s[j].end <= len);
    }
}

proof fn lemma_dedup_prefix_distinct(s: Seq<ByteRange>, i: int)
    ensures
        forall|p: int, q: int|
            0 <= p < q < dedup_prefix(s, i).len() ==> #[trigger] dedup_prefix(s, i)[p]
                != #[trigger] dedup_prefix(s, i)[q],
    decreases i,
{
    if 0 < i <= s.len() {
        lemma_dedup_prefix_distinct(s, i - 1);
        let d = dedup_prefix(s, i - 1);
        if !seq_has_range(d, s[i - 1]) {
            let dd = d.push(s[i - 1]);
            assert forall|p: int, q: int| 0 <= p < q < dd.len() implies #[trigger] dd[p]
                != #[trigger] dd[q] by {
                if q == d.len() {
                    assert(dd[q] == s[i - 1]);
                    assert(dd[p] == d[p]);
                } else {
                    assert(dd[p] == d[p] && dd[q] == d[q]);
                }
            }
        }
    }
}

/// No two produced entries share a resolved byte range: deduplication keeps
/// the first occurrence of each range and drops every later duplicate.
pub proof fn lemma_extraction_dedup(root: AstNode, src_len: int)
    ensures
        forall|p: int, q: int|
            0 <= p < q < deduped(visit_node(root, src_len)).len() ==> #[trigger] deduped(
                visit_node(root, src_len),
            )[p] != #[trigger] deduped(visit_node(root, src_len))[q],
{
    let s = visit_node(root, src_len);
    lemma_dedup_prefix_distinct(s, s.len() as int);
}

/// If the root's span resolves within the source, the first produced range
/// is the root's, ahead of every descendant.
pub proof fn lemma_root_range_first(root: AstNode, src_len: int)
    requires
        root.range is Some,
        root.range->0.end <= src_len,
    ensures
        deduped(visit_node(root, src_len)).len() >= 1,
        deduped(visit_node(root, src_len))[0] == root.range->0,
{
    let s = visit_node(root, src_len);
    assert(s[0] == root.range->0);
    lemma_dedup_prefix_first(s, s.len() as int);
}

proof fn lemma_dedup_prefix_first(s: Seq<ByteRange>, i: int)
    requires
        0 < i <= s.len(),
    ensures
        dedup_prefix(s, i).len() >= 1,
        dedup_prefix(s, i)[0] == s[0],
    decreases i,
{
    if i > 1 {
        lemma_dedup_prefix_first(s, i - 1);
        let d = dedup_prefix(s, i - 1);
        if !seq_has_range(d, s[i - 1]) {
            assert(d.push(s[i - 1])[0] == d[0]);
        }
    } else {
        assert(!seq_has_range(dedup_prefix(s, 0), s[0]));
        assert(dedup_prefix(s, 1) == dedup_prefix(s, 0).push(s[0]));
    }
}

/// Spec-level image of one produced entry: the resolved endpoints and the
/// source bytes they cover.
pub struct EntryV {
    pub start: int,
    pub end: int,
    pub text: Seq<u8>,
}

/// One produced entry: a distinct resolved byte range and the source bytes
/// it covers.
pub struct SpanEntry {
    pub range: ByteRange,
    pub text: Vec<u8>,
}

pub open spec fn entry_view(e: SpanEntry) -> EntryV {
    EntryV { start: e.range.start as int, end: e.range.end as int, text: e.text@ }
}

pub open spec fn view_entries(s: Seq<SpanEntry>) -> Seq<EntryV> {
    s.map_values(|e: SpanEntry| entry_view(e))
}

pub open spec fn entry_of_range(r: ByteRange, src: Seq<u8>) -> EntryV {
    EntryV {
        start: r.start as int,
        end: r.end as int,
        text: src.subrange(r.start as int, r.end as int),
    }
}

pub open spec fn entries_of(rs: Seq<ByteRange>, src: Seq<u8>) -> Seq<EntryV> {
    rs.map_values(|r: ByteRange| entry_of_range(r, src))
}

fn text_of_range(src: &Vec<u8>, r: ByteRange) -> (t: Vec<u8>)
    requires
        r.start <= r.end,
        r.end <= src@.len(),
    ensures
        t@ == src@.subrange(r.start as int, r.end as int),
{
    let mut t: Vec<u8> = Vec::new();
    let mut k: usize = r.start;
    while k < r.end
        invariant
            r.start <= k <= r.end,
            r.end <= src@.len(),
            t@ == src@.subrange(r.start as int, k as int),
        decreases r.end - k,
    {
        t.push(src[k]);
        proof {
            assert(t@ =~= src@.subrange(r.start as int, k as int + 1));
        }
        k += 1;
    }
    t
}

/// Walks the tree and returns one entry per distinct resolvable byte range,
/// in visitation order with the root's range first, each carrying the
/// source bytes it covers.
pub fn extract_ast_spans(root: &AstNode, src: &Vec<u8>) -> (r: Vec<SpanEntry>)
    requires
        node_wf(*root),
    ensures
        view_entries(r@) == entries_of(deduped(visit_node(*root, src@.len() as int)), src@),
{
    let len = src.len();
    let mut ranges: Vec<ByteRange> = Vec::new();
    collect_expr_ranges(root, len, &mut ranges);
    let dd = dedup_ranges(&ranges);
    proof {
        lemma_visit_node_ok(*root, len as int);
        lemma_dedup_ok(ranges@, len as int);
    }
    let mut out: Vec<SpanEntry> = Vec::new();
    let mut i: usize = 0;
    while i < dd.len()
        invariant
            i <= dd@.len(),
            out@.len() == i,
            dd@ == deduped(visit_node(*root, src@.len() as int)),
            ranges_ok(dd@, src@.len() as int),
            forall|k: int|
                0 <= k < i ==> entry_view(#[trigger] out@[k]) == entry_of_range(dd@[k], src@),
        decreases dd@.len() - i,
    {
        let rr = dd[i];
        proof {
            assert(range_wf(dd@[i as int]) && dd@[i as int].end <= src@.len());
        }
        let txt = text_of_range(src, rr);
        out.push(SpanEntry { range: rr, text: txt });
        i += 1;
    }
    proof {
        assert(view_entries(out@) =~= entries_of(dd@, src@));
    }
    out
}

} // verus!
