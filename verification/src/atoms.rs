//! The atom stream builder.
//!
//! The ordered atom stream is the sole input to rendering: every leaf whose
//! range is not covered by a deletion becomes a `Leaf` atom, and the
//! resolved directives splice in at their anchors — "before"-side
//! directives precede the position's leaf, "after"-side directives follow
//! it.  Directives sharing an anchor and side are emitted in the priority
//! order fixed by the resolver: indent ends, then the winning line break or
//! space, then literal texts, then indent starts.  A leaf fully covered by
//! a deletion is omitted along with the directives anchored to its
//! boundaries.  An anchor that lies on no token boundary at all is an
//! internal defect and fails the job, never a silent no-op.

use vstd::prelude::*;
use vstd::seq_lib::group_to_multiset_ensures;
use vstd::multiset::group_multiset_axioms;
use crate::error::{FormatterError, FormatterErrorV};
use crate::query::{Side, Directive, DirectiveV};
use crate::resolve::{
    Anchored, AnchoredV, ResolvedV, resolved_at, has_at, has_blank_at, is_blank_max, blank_max,
    blank_opt, lemma_blank_opt, starts_at, ends_at, lits_at,
};
use crate::tree::SyntaxTree;

verus! {

broadcast use group_to_multiset_ensures, group_multiset_axioms;

/// The smallest renderable unit: literal source text, identified by its
/// character range, or a resolved formatting directive.
#[derive(Clone, Debug)]
pub enum Atom {
    Leaf(usize, usize),
    Dir(Directive),
}

/// Mathematical image of an `Atom`.
pub enum AtomV {
    Leaf(usize, usize),
    Dir(DirectiveV),
}

impl View for Atom {
    type V = AtomV;

    open spec fn view(&self) -> AtomV {
        match self {
            Atom::Leaf(s, e) => AtomV::Leaf(*s, *e),
            Atom::Dir(d) => AtomV::Dir(d@),
        }
    }
}

/// `n` copies of one atom.
pub open spec fn repeat_atom(a: AtomV, n: nat) -> Seq<AtomV> {
    Seq::new(n, |i: int| a)
}

/// The single winning break-or-space atom at an anchor, after the resolver
/// has spoken: a deletion suppresses everything here, `NoSpace` suppresses
/// spaces and blank lines but not a hard line break, the largest blank-line
/// request beats a lone hardline, and a hardline beats a space.
pub open spec fn break_atoms(r: ResolvedV) -> Seq<AtomV> {
    if r.suppressed {
        Seq::empty()
    } else if r.nospace {
        if r.hardline {
            seq![AtomV::Dir(DirectiveV::InsertHardline)]
        } else {
            Seq::empty()
        }
    } else {
        match r.blank {
            Some(b) => seq![AtomV::Dir(DirectiveV::InsertBlankLines(b))],
            None => if r.hardline {
                seq![AtomV::Dir(DirectiveV::InsertHardline)]
            } else if r.space {
                seq![AtomV::Dir(DirectiveV::InsertSpace)]
            } else {
                Seq::empty()
            },
        }
    }
}

/// The literal atoms at an anchor; a deletion suppresses them.
pub open spec fn literal_atoms(r: ResolvedV) -> Seq<AtomV> {
    if r.suppressed {
        Seq::empty()
    } else {
        r.literals.map_values(|t: Seq<char>| AtomV::Dir(DirectiveV::Literal(t)))
    }
}

/// Everything one anchor contributes to the atom stream.  Indentation
/// directives are never suppressed, not even by a deletion.
pub open spec fn anchor_atoms(r: ResolvedV) -> Seq<AtomV> {
    repeat_atom(AtomV::Dir(DirectiveV::IndentEnd), r.ends) + break_atoms(r) + literal_atoms(r)
        + repeat_atom(AtomV::Dir(DirectiveV::IndentStart), r.starts)
}

/// A deletion at an anchor suppresses every whitespace and literal
/// directive there — a `Delete` always beats an `InsertSpace` — while the
/// indentation directives pass through untouched.
pub proof fn lemma_delete_suppresses(ds: Seq<AnchoredV>, pos: usize, side: Side)
    requires
        has_at(ds, pos, side, DirectiveV::Delete),
    ensures
        break_atoms(resolved_at(ds, pos, side)) == Seq::<AtomV>::empty(),
        literal_atoms(resolved_at(ds, pos, side)) == Seq::<AtomV>::empty(),
        anchor_atoms(resolved_at(ds, pos, side)) =~= repeat_atom(
            AtomV::Dir(DirectiveV::IndentEnd),
            resolved_at(ds, pos, side).ends,
        ) + repeat_atom(AtomV::Dir(DirectiveV::IndentStart), resolved_at(ds, pos, side).starts),
{
}

/// Pushing onto the underlying vector pushes the image onto the viewed
/// stream.
pub proof fn lemma_view_push_app(vs: Seq<Atom>, a: Atom, base: Seq<AtomV>, tail: Seq<AtomV>)
    requires
        vs.map_values(|x: Atom| x@) == base + tail,
    ensures
        (vs.push(a)).map_values(|x: Atom| x@) == base + tail.push(a@),
{
    assert(vs.map_values(|x: Atom| x@).len() == vs.len());
    assert(vs.len() == base.len() + tail.len());
    let l = (vs.push(a)).map_values(|x: Atom| x@);
    let rr = base + tail.push(a@);
    assert(l.len() == vs.len() + 1);
    assert(rr.len() == vs.len() + 1);
    assert forall|i: int| 0 <= i < l.len() implies l[i] == rr[i] by {
        assert(l[i] == vs.push(a)[i]@);
        if i < vs.len() {
            assert(vs.push(a)[i] == vs[i]);
            assert(vs.map_values(|x: Atom| x@)[i] == vs[i]@);
            assert((base + tail)[i] == vs[i]@);
            if i < base.len() {
                assert((base + tail)[i] == base[i]);
                assert(rr[i] == base[i]);
            } else {
                assert((base + tail)[i] == tail[i - base.len()]);
                assert(tail.push(a@)[i - base.len()] == tail[i - base.len()]);
                assert(rr[i] == tail[i - base.len()]);
            }
        } else {
            assert(vs.push(a)[i] == a);
            assert(tail.push(a@)[i - base.len()] == a@);
            assert(rr[i] == a@);
        }
    }
    assert(l =~= rr);
}

/// One more copy extends a repetition.
pub proof fn lemma_repeat_push(a: AtomV, n: nat)
    ensures
        repeat_atom(a, n).push(a) == repeat_atom(a, n + 1),
{
    assert(repeat_atom(a, n).push(a) =~= repeat_atom(a, n + 1));
}

/// Pushes the atoms of one anchor, resolving the directives that meet
/// there.
#[verifier::rlimit(100)]
pub fn emit_at(out: &mut Vec<Atom>, ds: &Vec<Anchored>, pos: usize, side: Side)
    ensures
        final(out)@.map_values(|a: Atom| a@) == old(out)@.map_values(|a: Atom| a@) + anchor_atoms(
            resolved_at(ds@.map_values(|d: Anchored| d@), pos, side),
        ),
{
    let ghost dsv = ds@.map_values(|d: Anchored| d@);
    let n: usize = ds.len();
    let mut has_del: bool = false;
    let mut has_ns: bool = false;
    let mut has_sp: bool = false;
    let mut has_hl: bool = false;
    let mut blank: Option<u64> = None;
    let mut starts: usize = 0;
    let mut ends: usize = 0;
    let mut lits: Vec<String> = Vec::new();
    let mut j: usize = 0;
    while j < n
        invariant
            j <= n,
            n == ds@.len(),
            dsv == ds@.map_values(|d: Anchored| d@),
            dsv.len() == n,
            has_del == has_at(dsv.take(j as int), pos, side, DirectiveV::Delete),
            has_ns == has_at(dsv.take(j as int), pos, side, DirectiveV::NoSpace),
            has_sp == has_at(dsv.take(j as int), pos, side, DirectiveV::InsertSpace),
            has_hl == has_at(dsv.take(j as int), pos, side, DirectiveV::InsertHardline),
            blank == blank_opt(dsv.take(j as int), pos, side),
            starts == starts_at(dsv.take(j as int), pos, side),
            ends == ends_at(dsv.take(j as int), pos, side),
            lits@.map_values(|s: String| s@) == lits_at(dsv.take(j as int), pos, side),
        decreases n - j,
    {
        let ghost prev = dsv.take(j as int);
        let ghost x = dsv[j as int];
        proof {
            assert(dsv.take(j + 1) =~= prev.push(x));
            assert(dsv.take(j + 1).drop_last() =~= prev);
            assert(x == ds@[j as int]@);
        }
        if ds[j].pos == pos && ds[j].side == side {
            match &ds[j].dir {
                Directive::Delete => {
                    has_del = true;
                    proof {
                        assert(x == (AnchoredV { pos, side, dir: DirectiveV::Delete }));
                    }
                },
                Directive::NoSpace => {
                    has_ns = true;
                    proof {
                        assert(x == (AnchoredV { pos, side, dir: DirectiveV::NoSpace }));
                    }
                },
                Directive::InsertSpace => {
                    has_sp = true;
                    proof {
                        assert(x == (AnchoredV { pos, side, dir: DirectiveV::InsertSpace }));
                    }
                },
                Directive::InsertHardline => {
                    has_hl = true;
                    proof {
                        assert(x == (AnchoredV { pos, side, dir: DirectiveV::InsertHardline }));
                    }
                },
                Directive::InsertBlankLines(m) => {
                    proof {
                        assert(x == (AnchoredV {
                            pos,
                            side,
                            dir: DirectiveV::InsertBlankLines(*m),
                        }));
                    }
                    let nb: u64 = match blank {
                        Some(b) => if b >= *m {
                            b
                        } else {
                            *m
                        },
                        None => *m,
                    };
                    blank = Some(nb);
                },
                Directive::IndentStart => {
                    proof {
                        assert(x == (AnchoredV { pos, side, dir: DirectiveV::IndentStart }));
                        assert(prev.to_multiset().count(
                            AnchoredV { pos, side, dir: DirectiveV::IndentStart },
                        ) <= prev.to_multiset().len());
                        assert(prev.to_multiset().len() == prev.len());
                    }
                    starts = starts + 1;
                },
                Directive::IndentEnd => {
                    proof {
                        assert(x == (AnchoredV { pos, side, dir: DirectiveV::IndentEnd }));
                        assert(prev.to_multiset().count(
                            AnchoredV { pos, side, dir: DirectiveV::IndentEnd },
                        ) <= prev.to_multiset().len());
                        assert(prev.to_multiset().len() == prev.len());
                    }
                    ends = ends + 1;
                },
                Directive::Literal(s) => {
                    proof {
                        assert(x == (AnchoredV { pos, side, dir: DirectiveV::Literal(s@) }));
                    }
                    lits.push(s.clone());
                    proof {
                        assert(lits@.map_values(|s: String| s@) =~= lits_at(
                            dsv.take(j + 1),
                            pos,
                            side,
                        ));
                    }
                },
            }
        } else {
            proof {
                assert(x.pos != pos || x.side != side);
                            assert(lits_at(dsv.take(j + 1), pos, side) =~= lits_at(prev, pos, side));
            }
        }
        j = j + 1;
    }
    proof {
        assert(dsv.take(n as int) =~= dsv);
    }
    let ghost r = resolved_at(dsv, pos, side);
    proof {
        lemma_blank_opt(dsv, pos, side);
        assert(r.suppressed == has_del);
        assert(r.nospace == has_ns);
        assert(r.space == has_sp);
        assert(r.hardline == has_hl);
        assert(r.starts == starts);
        assert(r.ends == ends);
        assert(r.literals == lits@.map_values(|s: String| s@));
        match blank {
            None => {
                assert(r.blank is None);
            },
            Some(b) => {
                assert(has_blank_at(dsv, pos, side));
                let c = blank_max(dsv, pos, side);
                assert(is_blank_max(dsv, pos, side, c));
                assert(c <= b && b <= c);
                assert(r.blank == Some(b));
            },
        }
    }
    let ghost base = out@.map_values(|a: Atom| a@);
    let mut k: usize = 0;
    while k < ends
        invariant
            k <= ends,
            out@.map_values(|a: Atom| a@) == base + repeat_atom(
                AtomV::Dir(DirectiveV::IndentEnd),
                k as nat,
            ),
        decreases ends - k,
    {
        let ghost vs = out@;
        out.push(Atom::Dir(Directive::IndentEnd));
        proof {
            lemma_view_push_app(
                vs,
                Atom::Dir(Directive::IndentEnd),
                base,
                repeat_atom(AtomV::Dir(DirectiveV::IndentEnd), k as nat),
            );
            lemma_repeat_push(AtomV::Dir(DirectiveV::IndentEnd), k as nat);
        }
        k = k + 1;
    }
    proof {
        assert(base + repeat_atom(AtomV::Dir(DirectiveV::IndentEnd), ends as nat) == out@.map_values(
            |a: Atom| a@,
        ));
    }
    let ghost base2 = out@.map_values(|a: Atom| a@);
    let ghost vs2 = out@;
    if !has_del {
        if has_ns {
            if has_hl {
                out.push(Atom::Dir(Directive::InsertHardline));
                proof {
                    lemma_view_push_app(vs2, Atom::Dir(Directive::InsertHardline), base2, Seq::empty());
                    assert(Seq::empty().push(AtomV::Dir(DirectiveV::InsertHardline)) =~= break_atoms(r));
                }
            }
        } else {
            match blank {
                Some(b) => {
                    out.push(Atom::Dir(Directive::InsertBlankLines(b)));
                    proof {
                        lemma_view_push_app(vs2, Atom::Dir(Directive::InsertBlankLines(b)), base2, Seq::empty());
                        assert(Seq::empty().push(AtomV::Dir(DirectiveV::InsertBlankLines(b))) =~= break_atoms(r));
                    }
                },
                None => {
                    if has_hl {
                        out.push(Atom::Dir(Directive::InsertHardline));
                        proof {
                            lemma_view_push_app(vs2, Atom::Dir(Directive::InsertHardline), base2, Seq::empty());
                            assert(Seq::empty().push(AtomV::Dir(DirectiveV::InsertHardline)) =~= break_atoms(r));
                        }
                    } else if has_sp {
                        out.push(Atom::Dir(Directive::InsertSpace));
                        proof {
                            lemma_view_push_app(vs2, Atom::Dir(Directive::InsertSpace), base2, Seq::empty());
                            assert(Seq::empty().push(AtomV::Dir(DirectiveV::InsertSpace)) =~= break_atoms(r));
                        }
                    }
                },
            }
        }
    }
    proof {
        assert(break_atoms(r).len() == 0 ==> base2 + break_atoms(r) =~= base2);
        assert(out@.map_values(|a: Atom| a@) == base2 + break_atoms(r));
    }
    let ghost base3 = out@.map_values(|a: Atom| a@);
    if !has_del {
        let nl: usize = lits.len();
        let mut q: usize = 0;
        while q < nl
            invariant
                q <= nl,
                nl == lits@.len(),
                out@.map_values(|a: Atom| a@) == base3 + lits@.map_values(|s: String| s@).take(
                    q as int,
                ).map_values(|t: Seq<char>| AtomV::Dir(DirectiveV::Literal(t))),
            decreases nl - q,
        {
            let ghost vs3 = out@;
            out.push(Atom::Dir(Directive::Literal(lits[q].clone())));
            proof {
                lemma_view_push_app(
                    vs3,
                    Atom::Dir(Directive::Literal(lits@[q as int])),
                    base3,
                    lits@.map_values(|s: String| s@).take(q as int).map_values(
                        |t: Seq<char>| AtomV::Dir(DirectiveV::Literal(t)),
                    ),
                );
                assert(lits@.map_values(|s: String| s@).take(q as int).map_values(
                    |t: Seq<char>| AtomV::Dir(DirectiveV::Literal(t)),
                ).push(AtomV::Dir(DirectiveV::Literal(lits@[q as int]@))) =~= lits@.map_values(
                    |s: String| s@,
                ).take(q + 1).map_values(|t: Seq<char>| AtomV::Dir(DirectiveV::Literal(t))));
            }
            q = q + 1;
        }
        proof {
            assert(lits@.map_values(|s: String| s@).take(nl as int) =~= lits@.map_values(
                |s: String| s@,
            ));
            assert(out@.map_values(|a: Atom| a@) =~= base3 + literal_atoms(r));
        }
    }
    proof {
        assert(out@.map_values(|a: Atom| a@) =~= base3 + literal_atoms(r));
    }
    let ghost base4 = out@.map_values(|a: Atom| a@);
    let mut k2: usize = 0;
    while k2 < starts
        invariant
            k2 <= starts,
            out@.map_values(|a: Atom| a@) == base4 + repeat_atom(
                AtomV::Dir(DirectiveV::IndentStart),
                k2 as nat,
            ),
        decreases starts - k2,
    {
        let ghost vs4 = out@;
        out.push(Atom::Dir(Directive::IndentStart));
        proof {
            lemma_view_push_app(
                vs4,
                Atom::Dir(Directive::IndentStart),
                base4,
                repeat_atom(AtomV::Dir(DirectiveV::IndentStart), k2 as nat),
            );
            lemma_repeat_push(AtomV::Dir(DirectiveV::IndentStart), k2 as nat);
        }
        k2 = k2 + 1;
    }
    proof {
        assert(out@.map_values(|a: Atom| a@) =~= base + anchor_atoms(r));
    }
}


/// Whether a token range is fully covered by one deleted range.
pub open spec fn covered(dels: Seq<(usize, usize)>, s: usize, e: usize) -> bool {
    exists|i: int| 0 <= i < dels.len() && (#[trigger] dels[i]).0 <= s && e <= dels[i].1
}

/// The ranges of the leaves among the first `n` arena entries, in arena
/// order.
pub open spec fn leaf_ranges(t: SyntaxTree, n: int) -> Seq<(usize, usize)>
    decreases n,
{
    if n <= 0 {
        Seq::empty()
    } else {
        leaf_ranges(t, n - 1) + (if t.is_leaf(n - 1) {
            seq![(t.nodes@[n - 1].start, t.nodes@[n - 1].end)]
        } else {
            Seq::empty()
        })
    }
}

/// What one leaf contributes to the stream: nothing when a deletion covers
/// it — its boundary directives vanish with it — and otherwise its
/// before-side directives, its text, and its after-side directives.
pub open spec fn leaf_atoms(ds: Seq<AnchoredV>, lf: (usize, usize), dels: Seq<(usize, usize)>) -> Seq<AtomV> {
    if covered(dels, lf.0, lf.1) {
        Seq::empty()
    } else {
        anchor_atoms(resolved_at(ds, lf.0, Side::Before)) + seq![AtomV::Leaf(lf.0, lf.1)]
            + anchor_atoms(resolved_at(ds, lf.1, Side::After))
    }
}

/// The whole atom stream over a leaf sequence.
pub open spec fn build_atoms(
    leaves: Seq<(usize, usize)>,
    ds: Seq<AnchoredV>,
    dels: Seq<(usize, usize)>,
) -> Seq<AtomV>
    decreases leaves.len(),
{
    if leaves.len() == 0 {
        Seq::empty()
    } else {
        build_atoms(leaves.drop_last(), ds, dels) + leaf_atoms(ds, leaves.last(), dels)
    }
}

/// Whether an anchor lies on an existing token boundary.
pub open spec fn anchor_on_boundary(a: AnchoredV, leaves: Seq<(usize, usize)>) -> bool {
    exists|j: int|
        0 <= j < leaves.len() && (match a.side {
            Side::Before => a.pos == (#[trigger] leaves[j]).0,
            Side::After => a.pos == leaves[j].1,
        })
}

/// Whether every anchor resolves to an existing token boundary.
pub open spec fn anchors_ok(ds: Seq<AnchoredV>, leaves: Seq<(usize, usize)>) -> bool {
    forall|i: int| 0 <= i < ds.len() ==> anchor_on_boundary(#[trigger] ds[i], leaves)
}

/// What `build` returns: the stream, or the internal defect of an anchor
/// past every token boundary.
pub open spec fn build_spec(
    t: SyntaxTree,
    ds: Seq<AnchoredV>,
    dels: Seq<(usize, usize)>,
) -> Result<Seq<AtomV>, FormatterErrorV> {
    if anchors_ok(ds, leaf_ranges(t, t.n())) {
        Ok(build_atoms(leaf_ranges(t, t.n()), ds, dels))
    } else {
        Err(FormatterErrorV::Internal("directive anchor does not lie on a token boundary"@))
    }
}

/// Merges the source leaves with the anchored directives into one
/// position-ordered atom stream; deterministic given its inputs.
pub fn build(t: &SyntaxTree, anchors: &Vec<Anchored>, deletes: &Vec<(usize, usize)>) -> (r:
    Result<Vec<Atom>, FormatterError>)
    ensures
        (match r {
            Ok(atoms) => build_spec(
                *t,
                anchors@.map_values(|d: Anchored| d@),
                deletes@,
            ) == Ok::<Seq<AtomV>, FormatterErrorV>(atoms@.map_values(|a: Atom| a@)),
            Err(e) => build_spec(*t, anchors@.map_values(|d: Anchored| d@), deletes@) == Err::<
                Seq<AtomV>,
                FormatterErrorV,
            >(e@),
        }),
{
    let ghost dsv = anchors@.map_values(|d: Anchored| d@);
    let n: usize = t.nodes.len();
    let mut leaves: Vec<(usize, usize)> = Vec::new();
    let mut i: usize = 0;
    while i < n
        invariant
            i <= n,
            n == t.nodes@.len(),
            leaves@ == leaf_ranges(*t, i as int),
        decreases n - i,
    {
        if t.nodes[i].children.len() == 0 {
            leaves.push((t.nodes[i].start, t.nodes[i].end));
        }
        proof {
            assert(leaves@ =~= leaf_ranges(*t, i + 1));
        }
        i = i + 1;
    }
    proof {
        assert(leaf_ranges(*t, t.n()) == leaves@);
    }
    let na: usize = anchors.len();
    let nl: usize = leaves.len();
    let mut a: usize = 0;
    while a < na
        invariant
            a <= na,
            na == anchors@.len(),
            nl == leaves@.len(),
            leaves@ == leaf_ranges(*t, t.n()),
            dsv == anchors@.map_values(|d: Anchored| d@),
            dsv.len() == na,
            forall|ii: int| 0 <= ii < a ==> anchor_on_boundary(#[trigger] dsv[ii], leaves@),
        decreases na - a,
    {
        let mut found: bool = false;
        let mut j: usize = 0;
        while j < nl
            invariant
                j <= nl,
                a < na,
                na == anchors@.len(),
                nl == leaves@.len(),
                dsv == anchors@.map_values(|d: Anchored| d@),
                !found ==> (forall|jj: int|
                    0 <= jj < j ==> !(match dsv[a as int].side {
                        Side::Before => dsv[a as int].pos == (#[trigger] leaves@[jj]).0,
                        Side::After => dsv[a as int].pos == leaves@[jj].1,
                    })),
                found ==> anchor_on_boundary(dsv[a as int], leaves@),
            decreases nl - j,
        {
            let hit: bool = match anchors[a].side {
                Side::Before => anchors[a].pos == leaves[j].0,
                Side::After => anchors[a].pos == leaves[j].1,
            };
            if hit {
                found = true;
            }
            j = j + 1;
        }
        if !found {
            assert(!anchor_on_boundary(dsv[a as int], leaves@));
            assert(!anchors_ok(dsv, leaves@));
            return Err(FormatterError::Internal(
                String::from_str("directive anchor does not lie on a token boundary"),
            ));
        }
        a = a + 1;
    }
    assert(anchors_ok(dsv, leaves@));
    let mut out: Vec<Atom> = Vec::new();
    let mut q: usize = 0;
    while q < nl
        invariant
            q <= nl,
            nl == leaves@.len(),
            dsv == anchors@.map_values(|d: Anchored| d@),
            out@.map_values(|x: Atom| x@) == build_atoms(leaves@.take(q as int), dsv, deletes@),
        decreases nl - q,
    {
        let (ls, le): (usize, usize) = (leaves[q].0, leaves[q].1);
        let nd: usize = deletes.len();
        let mut isdel: bool = false;
        let mut d: usize = 0;
        while d < nd
            invariant
                d <= nd,
                nd == deletes@.len(),
                q < nl,
                nl == leaves@.len(),
                ls == leaves@[q as int].0,
                le == leaves@[q as int].1,
                !isdel ==> (forall|dd: int|
                    0 <= dd < d ==> !((#[trigger] deletes@[dd]).0 <= ls && le <= deletes@[dd].1)),
                isdel ==> covered(deletes@, ls, le),
            decreases nd - d,
        {
            if deletes[d].0 <= ls && le <= deletes[d].1 {
                isdel = true;
            }
            d = d + 1;
        }
        let ghost base = out@.map_values(|x: Atom| x@);
        proof {
            assert(leaves@.take(q + 1).drop_last() =~= leaves@.take(q as int));
            assert(leaves@.take(q + 1).last() == leaves@[q as int]);
        }
        if !isdel {
            assert(!covered(deletes@, ls, le));
            emit_at(&mut out, anchors, ls, Side::Before);
            let ghost vs = out@;
            out.push(Atom::Leaf(ls, le));
            proof {
                lemma_view_push_app(
                    vs,
                    Atom::Leaf(ls, le),
                    base,
                    anchor_atoms(resolved_at(dsv, ls, Side::Before)),
                );
            }
            emit_at(&mut out, anchors, le, Side::After);
            proof {
                assert(out@.map_values(|x: Atom| x@) =~= build_atoms(
                    leaves@.take(q + 1),
                    dsv,
                    deletes@,
                ));
            }
        } else {
            proof {
                assert(out@.map_values(|x: Atom| x@) =~= build_atoms(
                    leaves@.take(q + 1),
                    dsv,
                    deletes@,
                ));
            }
        }
        q = q + 1;
    }
    proof {
        assert(leaves@.take(nl as int) =~= leaves@);
    }
    Ok(out)
}

} // verus!
