//! The directive resolver.
//!
//! Each match contributes directives anchored to a character position plus
//! a before/after side; a deletion contributes the deleted range and a
//! `Delete` marker on both of its boundaries.  At one shared anchor the
//! conflicts resolve in a fixed priority order:
//!
//! 1. `Delete` suppresses every whitespace and literal directive at that
//!    boundary (the underlying text is removed by the range);
//! 2. an explicit `NoSpace` overrides any `InsertSpace` or blank-line
//!    directive;
//! 3. among competing `InsertBlankLines` directives, the maximum count wins
//!    — never the sum;
//! 4. `IndentStart` and `IndentEnd` are never suppressed and form a stack.
//!
//! Every component of the resolution below is defined over the *multiset*
//! of directives at the anchor, so the outcome depends only on the kinds
//! that meet there, never on which rule matched first.  The one exception
//! is the list of literal texts, which keeps match order.

use vstd::prelude::*;
use vstd::seq_lib::group_to_multiset_ensures;
use vstd::multiset::Multiset;
use crate::query::{Side, Directive, DirectiveV, Op, OpV, RuleV, Match};
use crate::tree::{Node, SyntaxTree};

verus! {

broadcast use group_to_multiset_ensures;

/// A directive anchored to a character position and a side.
#[derive(Clone, Debug)]
pub struct Anchored {
    pub pos: usize,
    pub side: Side,
    pub dir: Directive,
}

/// Mathematical image of an `Anchored`.
#[verifier::ext_equal]
pub struct AnchoredV {
    pub pos: usize,
    pub side: Side,
    pub dir: DirectiveV,
}

impl View for Anchored {
    type V = AnchoredV;

    open spec fn view(&self) -> AnchoredV {
        AnchoredV { pos: self.pos, side: self.side, dir: self.dir@ }
    }
}

/// The anchored directives one op contributes for the matched node.
pub open spec fn op_anchors(nd: Node, op: OpV) -> Seq<AnchoredV> {
    match op {
        OpV::Anchored(side, d) => seq![
            AnchoredV {
                pos: if side == Side::Before {
                    nd.start
                } else {
                    nd.end
                },
                side: side,
                dir: d,
            },
        ],
        OpV::DeleteNode => seq![
            AnchoredV { pos: nd.start, side: Side::Before, dir: DirectiveV::Delete },
            AnchoredV { pos: nd.end, side: Side::After, dir: DirectiveV::Delete },
        ],
    }
}

/// The deleted ranges one op contributes for the matched node.
pub open spec fn op_deletes(nd: Node, op: OpV) -> Seq<(usize, usize)> {
    match op {
        OpV::Anchored(_, _) => Seq::empty(),
        OpV::DeleteNode => seq![(nd.start, nd.end)],
    }
}

/// The anchored directives of one rule applied to one node.
pub open spec fn rule_anchors(nd: Node, ops: Seq<OpV>) -> Seq<AnchoredV>
    decreases ops.len(),
{
    if ops.len() == 0 {
        Seq::empty()
    } else {
        rule_anchors(nd, ops.drop_last()) + op_anchors(nd, ops.last())
    }
}

/// The deleted ranges of one rule applied to one node.
pub open spec fn rule_deletes(nd: Node, ops: Seq<OpV>) -> Seq<(usize, usize)>
    decreases ops.len(),
{
    if ops.len() == 0 {
        Seq::empty()
    } else {
        rule_deletes(nd, ops.drop_last()) + op_deletes(nd, ops.last())
    }
}

/// All anchored directives of a match sequence, in match order.
pub open spec fn collect_anchors(t: SyntaxTree, rules: Seq<RuleV>, ms: Seq<Match>) -> Seq<
    AnchoredV,
>
    decreases ms.len(),
{
    if ms.len() == 0 {
        Seq::empty()
    } else {
        collect_anchors(t, rules, ms.drop_last()) + rule_anchors(
            t.nodes@[ms.last().node as int],
            rules[ms.last().rule as int].ops,
        )
    }
}

/// All deleted ranges of a match sequence, in match order.
pub open spec fn collect_deletes(t: SyntaxTree, rules: Seq<RuleV>, ms: Seq<Match>) -> Seq<
    (usize, usize),
>
    decreases ms.len(),
{
    if ms.len() == 0 {
        Seq::empty()
    } else {
        collect_deletes(t, rules, ms.drop_last()) + rule_deletes(
            t.nodes@[ms.last().node as int],
            rules[ms.last().rule as int].ops,
        )
    }
}

/// Turns the matches into anchored directives and deleted ranges.
pub fn collect(t: &SyntaxTree, doc: &crate::query::Document, ms: &Vec<Match>) -> (r: (
    Vec<Anchored>,
    Vec<(usize, usize)>,
))
    requires
        forall|m: int|
            0 <= m < ms@.len() ==> (#[trigger] ms@[m]).node < t.nodes@.len() && ms@[m].rule
                < doc@.rules.len(),
    ensures
        r.0@.map_values(|a: Anchored| a@) == collect_anchors(*t, doc@.rules, ms@),
        r.1@ == collect_deletes(*t, doc@.rules, ms@),
{
    let mut anchors: Vec<Anchored> = Vec::new();
    let mut deletes: Vec<(usize, usize)> = Vec::new();
    let n: usize = ms.len();
    let mut i: usize = 0;
    while i < n
        invariant
            i <= n,
            n == ms@.len(),
            forall|m: int|
                0 <= m < ms@.len() ==> (#[trigger] ms@[m]).node < t.nodes@.len() && ms@[m].rule
                    < doc@.rules.len(),
            anchors@.map_values(|a: Anchored| a@) == collect_anchors(
                *t,
                doc@.rules,
                ms@.take(i as int),
            ),
            deletes@ == collect_deletes(*t, doc@.rules, ms@.take(i as int)),
        decreases n - i,
    {
        let node: usize = ms[i].node;
        let rule: usize = ms[i].rule;
        let start: usize = t.nodes[node].start;
        let end: usize = t.nodes[node].end;
        let nops: usize = doc.rules[rule].ops.len();
        let ghost nd = t.nodes@[node as int];
        let ghost ops = doc@.rules[rule as int].ops;
        let mut k: usize = 0;
        while k < nops
            invariant
                k <= nops,
                node < t.nodes@.len(),
                rule < doc@.rules.len(),
                nd == t.nodes@[node as int],
                ops == doc@.rules[rule as int].ops,
                nops == ops.len(),
                start == nd.start,
                end == nd.end,
                anchors@.map_values(|a: Anchored| a@) == collect_anchors(
                    *t,
                    doc@.rules,
                    ms@.take(i as int),
                ) + rule_anchors(nd, ops.take(k as int)),
                deletes@ == collect_deletes(*t, doc@.rules, ms@.take(i as int)) + rule_deletes(
                    nd,
                    ops.take(k as int),
                ),
                i < n,
                n == ms@.len(),
                ms@[i as int].node == node,
                ms@[i as int].rule == rule,
                forall|m: int|
                    0 <= m < ms@.len() ==> (#[trigger] ms@[m]).node < t.nodes@.len() && ms@[m].rule
                        < doc@.rules.len(),
            decreases nops - k,
        {
            let ghost before_a = anchors@.map_values(|a: Anchored| a@);
            let ghost before_d = deletes@;
            proof {
                assert(ops.take(k + 1).drop_last() =~= ops.take(k as int));
                assert(ops.take(k + 1).last() == ops[k as int]);
                assert(rule_anchors(nd, ops.take(k + 1)) == rule_anchors(nd, ops.take(k as int))
                    + op_anchors(nd, ops[k as int]));
                assert(rule_deletes(nd, ops.take(k + 1)) == rule_deletes(nd, ops.take(k as int))
                    + op_deletes(nd, ops[k as int]));
            }
            match &doc.rules[rule].ops[k] {
                Op::Anchored(side, d) => {
                    assert(ops[k as int] == OpV::Anchored(*side, d@));
                    let p: usize = match side {
                        Side::Before => start,
                        Side::After => end,
                    };
                    let a = Anchored { pos: p, side: *side, dir: d.dup() };
                    let ghost av = a@;
                    anchors.push(a);
                    proof {
                        assert(anchors@.map_values(|a: Anchored| a@) =~= before_a.push(av));
                        assert(op_anchors(nd, ops[k as int]) =~= seq![av]);
                        assert(before_a.push(av) =~= collect_anchors(*t, doc@.rules, ms@.take(i as int))
                            + rule_anchors(nd, ops.take(k + 1)));
                        assert(deletes@ =~= collect_deletes(*t, doc@.rules, ms@.take(i as int))
                            + rule_deletes(nd, ops.take(k + 1)));
                    }
                },
                Op::DeleteNode => {
                    assert(ops[k as int] == OpV::DeleteNode);
                    let a1 = Anchored { pos: start, side: Side::Before, dir: Directive::Delete };
                    let a2 = Anchored { pos: end, side: Side::After, dir: Directive::Delete };
                    let ghost av1 = a1@;
                    let ghost av2 = a2@;
                    anchors.push(a1);
                    anchors.push(a2);
                    deletes.push((start, end));
                    proof {
                        assert(anchors@.map_values(|a: Anchored| a@) =~= before_a.push(av1).push(av2));
                        assert(op_anchors(nd, ops[k as int]) =~= seq![av1, av2]);
                        assert(before_a.push(av1).push(av2) =~= collect_anchors(
                            *t,
                            doc@.rules,
                            ms@.take(i as int),
                        ) + rule_anchors(nd, ops.take(k + 1)));
                        assert(deletes@ =~= collect_deletes(*t, doc@.rules, ms@.take(i as int))
                            + rule_deletes(nd, ops.take(k + 1)));
                    }
                },
            }
            k = k + 1;
        }
        proof {
            assert(ops.take(nops as int) =~= ops);
            assert(ms@.take(i + 1).drop_last() =~= ms@.take(i as int));
            assert(ms@.take(i + 1).last() == ms@[i as int]);
        }
        i = i + 1;
    }
    proof {
        assert(ms@.take(n as int) =~= ms@);
    }
    (anchors, deletes)
}

/// Whether the exact anchored directive value occurs in the multiset of a
/// stream.
pub open spec fn m_has(m: Multiset<AnchoredV>, pos: usize, side: Side, dir: DirectiveV) -> bool {
    m.count(AnchoredV { pos, side, dir }) > 0
}

/// Whether some blank-line directive sits at the anchor.
pub open spec fn m_has_blank(m: Multiset<AnchoredV>, pos: usize, side: Side) -> bool {
    exists|n: u64| m_has(m, pos, side, DirectiveV::InsertBlankLines(n))
}

/// `b` is the largest blank-line request at the anchor.
pub open spec fn m_is_blank_max(m: Multiset<AnchoredV>, pos: usize, side: Side, b: u64) -> bool {
    &&& m_has(m, pos, side, DirectiveV::InsertBlankLines(b))
    &&& forall|n: u64| m_has(m, pos, side, DirectiveV::InsertBlankLines(n)) ==> n <= b
}

/// The largest blank-line request at the anchor of a multiset.
pub open spec fn m_blank_max(m: Multiset<AnchoredV>, pos: usize, side: Side) -> u64 {
    choose|b: u64| m_is_blank_max(m, pos, side, b)
}

/// Whether the exact anchored directive value occurs in the stream.
pub open spec fn has_at(ds: Seq<AnchoredV>, pos: usize, side: Side, dir: DirectiveV) -> bool {
    m_has(ds.to_multiset(), pos, side, dir)
}

/// Whether some blank-line directive sits at the anchor.
pub open spec fn has_blank_at(ds: Seq<AnchoredV>, pos: usize, side: Side) -> bool {
    m_has_blank(ds.to_multiset(), pos, side)
}

/// `b` is the largest blank-line request at the anchor.
pub open spec fn is_blank_max(ds: Seq<AnchoredV>, pos: usize, side: Side, b: u64) -> bool {
    m_is_blank_max(ds.to_multiset(), pos, side, b)
}

/// The largest blank-line request at the anchor.
pub open spec fn blank_max(ds: Seq<AnchoredV>, pos: usize, side: Side) -> u64 {
    m_blank_max(ds.to_multiset(), pos, side)
}

/// The largest blank-line request at the anchor, computed along the
/// stream.
pub open spec fn blank_opt(ds: Seq<AnchoredV>, pos: usize, side: Side) -> Option<u64>
    decreases ds.len(),
{
    if ds.len() == 0 {
        None
    } else {
        let rest = blank_opt(ds.drop_last(), pos, side);
        let x = ds.last();
        if x.pos == pos && x.side == side {
            match x.dir {
                DirectiveV::InsertBlankLines(m) => match rest {
                    None => Some(m),
                    Some(b) => Some(
                        if b >= m {
                            b
                        } else {
                            m
                        },
                    ),
                },
                _ => rest,
            }
        } else {
            rest
        }
    }
}

/// An element that is no blank-line directive at the anchor leaves the
/// blank-line requests there unchanged.
pub proof fn lemma_blank_transfer(prevs: Seq<AnchoredV>, x: AnchoredV, pos: usize, side: Side)
    requires
        forall|q: u64| x != (AnchoredV { pos, side, dir: DirectiveV::InsertBlankLines(q) }),
    ensures
        forall|q: u64|
            has_at(prevs.push(x), pos, side, DirectiveV::InsertBlankLines(q)) == has_at(
                prevs,
                pos,
                side,
                DirectiveV::InsertBlankLines(q),
            ),
        has_blank_at(prevs.push(x), pos, side) == has_blank_at(prevs, pos, side),
{
    assert forall|q: u64|
        has_at(prevs.push(x), pos, side, DirectiveV::InsertBlankLines(q)) == has_at(
            prevs,
            pos,
            side,
            DirectiveV::InsertBlankLines(q),
        ) by {
        let v = AnchoredV { pos, side, dir: DirectiveV::InsertBlankLines(q) };
        assert(x != v);
        assert(prevs.push(x).to_multiset().count(v) == prevs.to_multiset().count(v));
    }
    if has_blank_at(prevs.push(x), pos, side) {
        let m = prevs.push(x).to_multiset();
        let q = choose|n: u64| m_has(m, pos, side, DirectiveV::InsertBlankLines(n));
        assert(has_at(prevs.push(x), pos, side, DirectiveV::InsertBlankLines(q)));
        assert(has_at(prevs, pos, side, DirectiveV::InsertBlankLines(q)));
        assert(m_has_blank(prevs.to_multiset(), pos, side));
    }
    if has_blank_at(prevs, pos, side) {
        let m = prevs.to_multiset();
        let q = choose|n: u64| m_has(m, pos, side, DirectiveV::InsertBlankLines(n));
        assert(has_at(prevs, pos, side, DirectiveV::InsertBlankLines(q)));
        assert(has_at(prevs.push(x), pos, side, DirectiveV::InsertBlankLines(q)));
        assert(m_has_blank(prevs.push(x).to_multiset(), pos, side));
    }
}

/// `blank_opt` computes exactly the largest blank-line request at the
/// anchor, when there is one.
pub proof fn lemma_blank_opt(ds: Seq<AnchoredV>, pos: usize, side: Side)
    ensures
        (match blank_opt(ds, pos, side) {
            None => !has_blank_at(ds, pos, side),
            Some(b) => is_blank_max(ds, pos, side, b),
        }),
    decreases ds.len(),
{
    if ds.len() == 0 {
        assert(ds.to_multiset().len() == 0);
        if has_blank_at(ds, pos, side) {
            let m = ds.to_multiset();
            let q = choose|n: u64| m_has(m, pos, side, DirectiveV::InsertBlankLines(n));
            assert(m.count(AnchoredV { pos, side, dir: DirectiveV::InsertBlankLines(q) })
                <= m.len());
            assert(false);
        }
    } else {
        let dd = ds.drop_last();
        let x = ds.last();
        lemma_blank_opt(dd, pos, side);
        assert(ds =~= dd.push(x));
        if x.pos == pos && x.side == side && (x.dir matches DirectiveV::InsertBlankLines(_)) {
            let m = (choose|m: u64| x.dir == DirectiveV::InsertBlankLines(m));
            assert(x.dir == DirectiveV::InsertBlankLines(m));
            assert(x == (AnchoredV { pos, side, dir: DirectiveV::InsertBlankLines(m) }));
            let nb = (match blank_opt(dd, pos, side) {
                None => m,
                Some(b) => if b >= m {
                    b
                } else {
                    m
                },
            });
            assert(blank_opt(ds, pos, side) == Some(nb));
            assert(dd.push(x).to_multiset().count(
                AnchoredV { pos, side, dir: DirectiveV::InsertBlankLines(nb) },
            ) > 0);
            assert(m_has(ds.to_multiset(), pos, side, DirectiveV::InsertBlankLines(nb)));
            assert forall|q: u64|
                m_has(ds.to_multiset(), pos, side, DirectiveV::InsertBlankLines(q)) implies q
                <= nb by {
                let v = AnchoredV { pos, side, dir: DirectiveV::InsertBlankLines(q) };
                assert(dd.push(x).to_multiset().count(v) > 0);
                if v != x {
                    assert(dd.to_multiset().count(v) > 0);
                    assert(m_has(dd.to_multiset(), pos, side, DirectiveV::InsertBlankLines(q)));
                    assert(m_has_blank(dd.to_multiset(), pos, side));
                }
            }
            assert(m_is_blank_max(ds.to_multiset(), pos, side, nb));
        } else {
            assert(forall|q: u64| x != (AnchoredV { pos, side, dir: DirectiveV::InsertBlankLines(q) }));
            lemma_blank_transfer(dd, x, pos, side);
            assert(blank_opt(ds, pos, side) == blank_opt(dd, pos, side));
            assert(ds.to_multiset() == dd.push(x).to_multiset());
            match blank_opt(dd, pos, side) {
                None => {
                    assert(!m_has_blank(dd.push(x).to_multiset(), pos, side));
                    assert(!has_blank_at(ds, pos, side));
                },
                Some(b) => {
                    assert(m_has(dd.to_multiset(), pos, side, DirectiveV::InsertBlankLines(b)));
                    assert(m_has(ds.to_multiset(), pos, side, DirectiveV::InsertBlankLines(b)));
                    assert forall|q: u64|
                        m_has(ds.to_multiset(), pos, side, DirectiveV::InsertBlankLines(q))
                        implies q <= b by {
                        assert(m_has(dd.push(x).to_multiset(), pos, side,
                            DirectiveV::InsertBlankLines(q)));
                        assert(m_has(dd.to_multiset(), pos, side, DirectiveV::InsertBlankLines(q)));
                    }
                    assert(m_is_blank_max(ds.to_multiset(), pos, side, b));
                },
            }
        }
    }
}

/// The multiplicity of `IndentStart` at the anchor.
pub open spec fn starts_at(ds: Seq<AnchoredV>, pos: usize, side: Side) -> nat {
    ds.to_multiset().count(AnchoredV { pos, side, dir: DirectiveV::IndentStart })
}

/// The multiplicity of `IndentEnd` at the anchor.
pub open spec fn ends_at(ds: Seq<AnchoredV>, pos: usize, side: Side) -> nat {
    ds.to_multiset().count(AnchoredV { pos, side, dir: DirectiveV::IndentEnd })
}

/// The maximum of competing blank-line requests wins — never their sum:
/// whenever `b` is a request present at the anchor and no larger one is,
/// the resolution settles on exactly `b`.
pub proof fn lemma_blank_max_is_maximum(ds: Seq<AnchoredV>, pos: usize, side: Side, b: u64)
    requires
        is_blank_max(ds, pos, side, b),
    ensures
        resolved_at(ds, pos, side).blank == Some(b),
{
    assert(has_blank_at(ds, pos, side));
    let c = blank_max(ds, pos, side);
    assert(m_is_blank_max(ds.to_multiset(), pos, side, c));
    assert(c <= b && b <= c);
}

/// Tie-break determinism: every part of the resolution at an anchor,
/// except the order of literal texts, is a function of the multiset of
/// directives that meet there — it cannot depend on which rule matched
/// first.  In particular a `Delete` beats an `InsertSpace` whatever their
/// order.
pub proof fn lemma_resolution_kind_determined(
    ds1: Seq<AnchoredV>,
    ds2: Seq<AnchoredV>,
    pos: usize,
    side: Side,
)
    requires
        ds1.to_multiset() == ds2.to_multiset(),
    ensures
        resolved_at(ds1, pos, side).suppressed == resolved_at(ds2, pos, side).suppressed,
        resolved_at(ds1, pos, side).nospace == resolved_at(ds2, pos, side).nospace,
        resolved_at(ds1, pos, side).space == resolved_at(ds2, pos, side).space,
        resolved_at(ds1, pos, side).hardline == resolved_at(ds2, pos, side).hardline,
        resolved_at(ds1, pos, side).blank == resolved_at(ds2, pos, side).blank,
        resolved_at(ds1, pos, side).starts == resolved_at(ds2, pos, side).starts,
        resolved_at(ds1, pos, side).ends == resolved_at(ds2, pos, side).ends,
{
}

/// The literal texts at the anchor, in match order.
pub open spec fn lits_at(ds: Seq<AnchoredV>, pos: usize, side: Side) -> Seq<Seq<char>>
    decreases ds.len(),
{
    if ds.len() == 0 {
        Seq::empty()
    } else {
        lits_at(ds.drop_last(), pos, side) + (match ds.last().dir {
            DirectiveV::Literal(txt) => if ds.last().pos == pos && ds.last().side == side {
                seq![txt]
            } else {
                Seq::empty()
            },
            _ => Seq::empty(),
        })
    }
}

/// The outcome of conflict resolution at one anchor.
#[verifier::ext_equal]
pub struct ResolvedV {
    /// A `Delete` sits here: whitespace and literals are suppressed.
    pub suppressed: bool,
    /// A `NoSpace` sits here: spaces and blank lines are suppressed.
    pub nospace: bool,
    pub space: bool,
    pub hardline: bool,
    /// The winning blank-line count, if any blank-line directive sits here.
    pub blank: Option<u64>,
    pub starts: nat,
    pub ends: nat,
    pub literals: Seq<Seq<char>>,
}

/// Conflict resolution at one anchor.  Every field except `literals` is a
/// function of the multiset of directives at the anchor.
pub open spec fn resolved_at(ds: Seq<AnchoredV>, pos: usize, side: Side) -> ResolvedV {
    ResolvedV {
        suppressed: has_at(ds, pos, side, DirectiveV::Delete),
        nospace: has_at(ds, pos, side, DirectiveV::NoSpace),
        space: has_at(ds, pos, side, DirectiveV::InsertSpace),
        hardline: has_at(ds, pos, side, DirectiveV::InsertHardline),
        blank: if has_blank_at(ds, pos, side) {
            Some(blank_max(ds, pos, side))
        } else {
            None
        },
        starts: starts_at(ds, pos, side),
        ends: ends_at(ds, pos, side),
        literals: lits_at(ds, pos, side),
    }
}

} // verus!
