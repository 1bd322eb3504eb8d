//! One formatting pass and the idempotence check.
//!
//! A pass matches the pattern document against the tree, resolves the
//! anchored directives, builds the atom stream and renders it — pure and
//! deterministic given the source, the tree and the document.  The full
//! `format` operation runs the pass on its own output a second time, with a
//! freshly parsed tree, and accepts the result only when the two outputs
//! agree byte for byte: output stability is the guaranteed property, and it
//! is checked during real formatting, not only in tests.  Parsing is the
//! grammar provider's work, so the caller hands each pass its tree; the
//! decision that joins the two passes lives here, verified.

use vstd::prelude::*;
use vstd::string::*;
use crate::error::{FormatterError, FormatterErrorV};
use crate::tree::SyntaxTree;
use crate::query::{
    Document, DocumentV, DirectiveV, OpV, Match, match_all, match_all_spec,
    lemma_matches_upto_bounds,
};
use crate::resolve::{
    collect, collect_anchors, collect_deletes, rule_anchors, op_anchors, lits_at, resolved_at,
    AnchoredV,
};
use crate::atoms::{
    build, build_spec, build_atoms, leaf_atoms, leaf_ranges, anchor_atoms, repeat_atom,
    break_atoms, literal_atoms, covered, AtomV,
};
use crate::render::{
    render, render_run, fault_message, Config, strip_ws, texts_of, atom_text,
    lemma_render_text_preservation, lemma_render_blank_bound, atoms_newline_free,
    text_newline_free, no_long_nl_run,
};

verus! {

/// One full pipeline pass over an already-parsed tree: matching, conflict
/// resolution, atom-stream construction, rendering.  A tree that is not
/// well formed against the source is an internal defect.
pub open spec fn pass_spec(src: Seq<char>, t: SyntaxTree, d: DocumentV, cfg: Config) -> Result<
    Seq<char>,
    FormatterErrorV,
> {
    if !t.wf(src) {
        Err(FormatterErrorV::Internal("syntax tree is not well formed"@))
    } else {
        let ms = match_all_spec(t, d);
        let ds = collect_anchors(t, d.rules, ms);
        let dels = collect_deletes(t, d.rules, ms);
        match build_spec(t, ds, dels) {
            Err(e) => Err(e),
            Ok(atoms) => match render_run(atoms, src, cfg) {
                Err(f) => Err(FormatterErrorV::Internal(fault_message(f))),
                Ok(text) => Ok(text),
            },
        }
    }
}

/// Runs one formatting pass.  Total: a malformed tree, an anchor off every
/// token boundary, and an unbalanced indentation stack are each reported as
/// an internal error, never recovered from.
pub fn format_pass(src: &str, t: &SyntaxTree, doc: &Document, cfg: &Config) -> (r: Result<
    String,
    FormatterError,
>)
    requires
        cfg.wf(),
    ensures
        (match r {
            Ok(s) => pass_spec(src@, *t, doc@, *cfg) == Ok::<Seq<char>, FormatterErrorV>(s@),
            Err(e) => pass_spec(src@, *t, doc@, *cfg) == Err::<Seq<char>, FormatterErrorV>(e@),
        }),
{
    if !t.check(src) {
        return Err(FormatterError::Internal(String::from_str(
            "syntax tree is not well formed",
        )));
    }
    proof {
        t.lemma_wf_parents(src@);
    }
    let nn: usize = t.nodes.len();
    let nr: usize = doc.rules.len();
    let ms = match_all(t, doc);
    proof {
        assert(t.n() == nn as int);
        assert(doc@.rules.len() == nr as int);
        lemma_matches_upto_bounds(*t, doc@.rules, t.n());
    }
    let (anchors, deletes) = collect(t, doc, &ms);
    match build(t, &anchors, &deletes) {
        Err(e) => Err(e),
        Ok(atoms) => match render(&atoms, src, cfg) {
            Err(e) => Err(e),
            Ok(s) => Ok(s),
        },
    }
}

/// Joins the two generations of output: the first is accepted only when
/// the second reproduces it byte for byte; otherwise both are reported.
pub fn check_idempotence(first: String, second: String) -> (r: Result<String, FormatterError>)
    ensures
        first@ == second@ ==> (r matches Ok(s) && s@ == first@),
        first@ != second@ ==> (r matches Err(e) && e@ == FormatterErrorV::Idempotence(
            first@,
            second@,
        )),
{
    if first.eq(&second) {
        Ok(first)
    } else {
        Err(FormatterError::Idempotence(first, second))
    }
}

/// The whole `format` operation, over any deterministic tree provider
/// `parse`: one pass on the input, one pass on that output with a freshly
/// parsed tree, and the byte-for-byte comparison of the two generations.
pub open spec fn format_spec(
    src: Seq<char>,
    d: DocumentV,
    cfg: Config,
    parse: spec_fn(Seq<char>) -> SyntaxTree,
) -> Result<Seq<char>, FormatterErrorV> {
    match pass_spec(src, parse(src), d, cfg) {
        Err(e) => Err(e),
        Ok(o1) => match pass_spec(o1, parse(o1), d, cfg) {
            Err(e) => Err(e),
            Ok(o2) => if o1 == o2 {
                Ok(o1)
            } else {
                Err(FormatterErrorV::Idempotence(o1, o2))
            },
        },
    }
}

/// Idempotence: for every supported text, formatting an accepted output
/// changes nothing — `format(format(s)) == format(s)` whenever `format(s)`
/// succeeds, for any deterministic tree provider.
pub proof fn lemma_format_idempotent(
    src: Seq<char>,
    d: DocumentV,
    cfg: Config,
    parse: spec_fn(Seq<char>) -> SyntaxTree,
)
    ensures
        (format_spec(src, d, cfg, parse) matches Ok(t) ==> format_spec(t, d, cfg, parse)
            == Ok::<Seq<char>, FormatterErrorV>(t)),
{
    if format_spec(src, d, cfg, parse) is Ok {
        let t = format_spec(src, d, cfg, parse)->Ok_0;
        let o1 = pass_spec(src, parse(src), d, cfg)->Ok_0;
        assert(o1 == t);
        assert(pass_spec(t, parse(t), d, cfg) == Ok::<Seq<char>, FormatterErrorV>(t));
    }
}

/// The exec driver's shape meets `format_spec`: when the caller parses the
/// input and the first output with the same deterministic provider, running
/// the pass twice and joining the generations is exactly `format`.
pub proof fn lemma_driver_composition(
    src: Seq<char>,
    d: DocumentV,
    cfg: Config,
    parse: spec_fn(Seq<char>) -> SyntaxTree,
    o1: Seq<char>,
    o2: Seq<char>,
)
    requires
        pass_spec(src, parse(src), d, cfg) == Ok::<Seq<char>, FormatterErrorV>(o1),
        pass_spec(o1, parse(o1), d, cfg) == Ok::<Seq<char>, FormatterErrorV>(o2),
    ensures
        o1 == o2 ==> format_spec(src, d, cfg, parse) == Ok::<Seq<char>, FormatterErrorV>(o1),
        o1 != o2 ==> format_spec(src, d, cfg, parse) == Err::<Seq<char>, FormatterErrorV>(
            FormatterErrorV::Idempotence(o1, o2),
        ),
{
}


/// An op that inserts no literal text.
pub open spec fn op_no_literal(op: OpV) -> bool {
    !(op matches OpV::Anchored(_, DirectiveV::Literal(_)))
}

/// A document without literal captures: everything it emits besides the
/// source tokens is whitespace and indentation.
pub open spec fn doc_has_no_literals(d: DocumentV) -> bool {
    forall|r: int, k: int|
        0 <= r < d.rules.len() && 0 <= k < d.rules[r].ops.len() ==> op_no_literal(
            #[trigger] d.rules[r].ops[k],
        )
}

/// A directive stream without literal directives.
pub open spec fn no_literal_dirs(ds: Seq<AnchoredV>) -> bool {
    forall|i: int| 0 <= i < ds.len() ==> !((#[trigger] ds[i]).dir matches DirectiveV::Literal(_))
}

/// An op whose literal text, if it has one, holds no newline.
pub open spec fn op_literal_clean(op: OpV) -> bool {
    match op {
        OpV::Anchored(_, DirectiveV::Literal(t)) => text_newline_free(t),
        _ => true,
    }
}

/// A document whose literal captures insert no newline: line breaks then
/// enter the output only through the break directives the renderer budgets.
pub open spec fn doc_literals_newline_free(d: DocumentV) -> bool {
    forall|r: int, k: int|
        0 <= r < d.rules.len() && 0 <= k < d.rules[r].ops.len() ==> op_literal_clean(
            #[trigger] d.rules[r].ops[k],
        )
}

/// A directive stream whose literal texts hold no newline.
pub open spec fn dirs_literals_clean(ds: Seq<AnchoredV>) -> bool {
    forall|i: int|
        0 <= i < ds.len() ==> (match (#[trigger] ds[i]).dir {
            DirectiveV::Literal(t) => text_newline_free(t),
            _ => true,
        })
}

proof fn lemma_rule_anchors_lit_clean(nd: crate::tree::Node, ops: Seq<OpV>)
    requires
        forall|k: int| 0 <= k < ops.len() ==> op_literal_clean(#[trigger] ops[k]),
    ensures
        dirs_literals_clean(rule_anchors(nd, ops)),
    decreases ops.len(),
{
    if ops.len() > 0 {
        assert(forall|k: int| 0 <= k < ops.len() - 1 ==> ops.drop_last()[k] == ops[k]);
        lemma_rule_anchors_lit_clean(nd, ops.drop_last());
        assert(op_literal_clean(ops.last()));
    }
}

proof fn lemma_collect_lit_clean(t: SyntaxTree, d: DocumentV, ms: Seq<Match>)
    requires
        doc_literals_newline_free(d),
        forall|m: int| 0 <= m < ms.len() ==> (#[trigger] ms[m]).rule < d.rules.len(),
    ensures
        dirs_literals_clean(collect_anchors(t, d.rules, ms)),
    decreases ms.len(),
{
    if ms.len() > 0 {
        assert(forall|m: int| 0 <= m < ms.len() - 1 ==> ms.drop_last()[m] == ms[m]);
        lemma_collect_lit_clean(t, d, ms.drop_last());
        let last = ms.last();
        let ops = d.rules[last.rule as int].ops;
        assert(forall|k: int| 0 <= k < ops.len() ==> op_literal_clean(#[trigger] ops[k]));
        lemma_rule_anchors_lit_clean(t.nodes@[last.node as int], ops);
    }
}

proof fn lemma_lits_at_clean(ds: Seq<AnchoredV>, pos: usize, side: crate::query::Side)
    requires
        dirs_literals_clean(ds),
    ensures
        forall|j: int|
            0 <= j < lits_at(ds, pos, side).len() ==> text_newline_free(
                #[trigger] lits_at(ds, pos, side)[j],
            ),
    decreases ds.len(),
{
    if ds.len() > 0 {
        assert(forall|i: int| 0 <= i < ds.len() - 1 ==> ds.drop_last()[i] == ds[i]);
        lemma_lits_at_clean(ds.drop_last(), pos, side);
        let prev = lits_at(ds.drop_last(), pos, side);
        assert forall|j: int|
            0 <= j < lits_at(ds, pos, side).len() implies text_newline_free(
            #[trigger] lits_at(ds, pos, side)[j],
        ) by {
            if j < prev.len() {
                assert(lits_at(ds, pos, side)[j] == prev[j]);
            } else {
                assert(ds.last() == ds[ds.len() - 1]);
            }
        }
    }
}

proof fn lemma_anchor_atoms_nl_free(
    ds: Seq<AnchoredV>,
    pos: usize,
    side: crate::query::Side,
    src: Seq<char>,
)
    requires
        dirs_literals_clean(ds),
    ensures
        forall|j: int|
            0 <= j < anchor_atoms(resolved_at(ds, pos, side)).len() ==> text_newline_free(
                atom_text(#[trigger] anchor_atoms(resolved_at(ds, pos, side))[j], src),
            ),
{
    lemma_lits_at_clean(ds, pos, side);
    let r = resolved_at(ds, pos, side);
    assert(r.literals == lits_at(ds, pos, side));
    let e1 = repeat_atom(AtomV::Dir(DirectiveV::IndentEnd), r.ends);
    let e2 = break_atoms(r);
    let e3 = literal_atoms(r);
    let e4 = repeat_atom(AtomV::Dir(DirectiveV::IndentStart), r.starts);
    assert forall|j: int|
        0 <= j < anchor_atoms(r).len() implies text_newline_free(
        atom_text(#[trigger] anchor_atoms(r)[j], src),
    ) by {
        let a = anchor_atoms(r)[j];
        if j < e1.len() {
            assert(a == e1[j]);
        } else if j < e1.len() + e2.len() {
            assert(a == e2[j - e1.len()]);
        } else if j < e1.len() + e2.len() + e3.len() {
            let idx = j - e1.len() - e2.len();
            assert(a == e3[idx]);
            assert(a == AtomV::Dir(DirectiveV::Literal(r.literals[idx])));
            assert(text_newline_free(r.literals[idx]));
        } else {
            assert(a == e4[j - e1.len() - e2.len() - e3.len()]);
        }
    }
}

proof fn lemma_rule_anchors_no_lit(nd: crate::tree::Node, ops: Seq<OpV>)
    requires
        forall|k: int| 0 <= k < ops.len() ==> op_no_literal(#[trigger] ops[k]),
    ensures
        no_literal_dirs(rule_anchors(nd, ops)),
    decreases ops.len(),
{
    if ops.len() > 0 {
        assert(forall|k: int| 0 <= k < ops.len() - 1 ==> ops.drop_last()[k] == ops[k]);
        lemma_rule_anchors_no_lit(nd, ops.drop_last());
        assert(op_no_literal(ops.last()));
    }
}

proof fn lemma_collect_no_lit(t: SyntaxTree, d: DocumentV, ms: Seq<Match>)
    requires
        doc_has_no_literals(d),
        forall|m: int| 0 <= m < ms.len() ==> (#[trigger] ms[m]).rule < d.rules.len(),
    ensures
        no_literal_dirs(collect_anchors(t, d.rules, ms)),
    decreases ms.len(),
{
    if ms.len() > 0 {
        assert(forall|m: int| 0 <= m < ms.len() - 1 ==> ms.drop_last()[m] == ms[m]);
        lemma_collect_no_lit(t, d, ms.drop_last());
        let last = ms.last();
        let ops = d.rules[last.rule as int].ops;
        assert(forall|k: int| 0 <= k < ops.len() ==> op_no_literal(#[trigger] ops[k]));
        lemma_rule_anchors_no_lit(t.nodes@[last.node as int], ops);
    }
}

proof fn lemma_lits_at_empty(ds: Seq<AnchoredV>, pos: usize, side: crate::query::Side)
    requires
        no_literal_dirs(ds),
    ensures
        lits_at(ds, pos, side) == Seq::<Seq<char>>::empty(),
    decreases ds.len(),
{
    if ds.len() > 0 {
        assert(forall|i: int| 0 <= i < ds.len() - 1 ==> ds.drop_last()[i] == ds[i]);
        lemma_lits_at_empty(ds.drop_last(), pos, side);
        assert(!(ds.last().dir matches DirectiveV::Literal(_)));
        assert(lits_at(ds, pos, side) =~= Seq::<Seq<char>>::empty());
    }
}

proof fn lemma_anchor_atoms_clean(
    ds: Seq<AnchoredV>,
    pos: usize,
    side: crate::query::Side,
    src: Seq<char>,
)
    requires
        no_literal_dirs(ds),
    ensures
        forall|j: int|
            0 <= j < anchor_atoms(resolved_at(ds, pos, side)).len() ==> atom_text(
                #[trigger] anchor_atoms(resolved_at(ds, pos, side))[j],
                src,
            ) == Seq::<char>::empty(),
{
    lemma_lits_at_empty(ds, pos, side);
    let r = resolved_at(ds, pos, side);
    assert(r.literals.len() == 0);
    assert forall|j: int|
        0 <= j < anchor_atoms(r).len() implies atom_text(
        #[trigger] anchor_atoms(r)[j],
        src,
    ) == Seq::<char>::empty() by {
        let a = anchor_atoms(r)[j];
        assert(a matches AtomV::Dir(d) && !(d matches DirectiveV::Literal(_)));
    }
}

/// `texts_of` splits over concatenation.
proof fn lemma_texts_of_add(a: Seq<AtomV>, b: Seq<AtomV>, src: Seq<char>)
    ensures
        texts_of(a + b, src) == texts_of(a, src) + texts_of(b, src),
    decreases b.len(),
{
    if b.len() == 0 {
        assert(a + b =~= a);
        assert(texts_of(a, src) + texts_of(b, src) =~= texts_of(a, src));
    } else {
        assert((a + b).drop_last() =~= a + b.drop_last());
        assert((a + b).last() == b.last());
        lemma_texts_of_add(a, b.drop_last(), src);
        assert(texts_of(a, src) + texts_of(b.drop_last(), src) + atom_text(b.last(), src)
            =~= texts_of(a, src) + (texts_of(b.drop_last(), src) + atom_text(b.last(), src)));
    }
}

proof fn lemma_texts_of_empty_texts(atoms: Seq<AtomV>, src: Seq<char>)
    requires
        forall|j: int|
            0 <= j < atoms.len() ==> atom_text(#[trigger] atoms[j], src) == Seq::<char>::empty(),
    ensures
        texts_of(atoms, src) == Seq::<char>::empty(),
    decreases atoms.len(),
{
    if atoms.len() > 0 {
        assert(forall|j: int| 0 <= j < atoms.len() - 1 ==> atoms.drop_last()[j] == atoms[j]);
        lemma_texts_of_empty_texts(atoms.drop_last(), src);
        assert(atom_text(atoms.last(), src) == Seq::<char>::empty());
        assert(texts_of(atoms, src) =~= Seq::<char>::empty());
    }
}

/// The token text that survives deletion: the concatenation of every leaf
/// not covered by a deleted range.
pub open spec fn kept_texts(
    leaves: Seq<(usize, usize)>,
    dels: Seq<(usize, usize)>,
    src: Seq<char>,
) -> Seq<char>
    decreases leaves.len(),
{
    if leaves.len() == 0 {
        Seq::empty()
    } else {
        kept_texts(leaves.drop_last(), dels, src) + (if covered(
            dels,
            leaves.last().0,
            leaves.last().1,
        ) {
            Seq::<char>::empty()
        } else {
            atom_text(AtomV::Leaf(leaves.last().0, leaves.last().1), src)
        })
    }
}

proof fn lemma_build_texts(
    leaves: Seq<(usize, usize)>,
    ds: Seq<AnchoredV>,
    dels: Seq<(usize, usize)>,
    src: Seq<char>,
)
    requires
        no_literal_dirs(ds),
    ensures
        texts_of(build_atoms(leaves, ds, dels), src) == kept_texts(leaves, dels, src),
    decreases leaves.len(),
{
    if leaves.len() > 0 {
        lemma_build_texts(leaves.drop_last(), ds, dels, src);
        let lf = leaves.last();
        lemma_texts_of_add(build_atoms(leaves.drop_last(), ds, dels), leaf_atoms(ds, lf, dels), src);
        if covered(dels, lf.0, lf.1) {
            assert(texts_of(leaf_atoms(ds, lf, dels), src) == Seq::<char>::empty());
            assert(kept_texts(leaves, dels, src) =~= kept_texts(leaves.drop_last(), dels, src));
            assert(texts_of(build_atoms(leaves, ds, dels), src) =~= kept_texts(
                leaves,
                dels,
                src,
            ));
        } else {
            let before = anchor_atoms(resolved_at(ds, lf.0, crate::query::Side::Before));
            let after = anchor_atoms(resolved_at(ds, lf.1, crate::query::Side::After));
            lemma_anchor_atoms_clean(ds, lf.0, crate::query::Side::Before, src);
            lemma_anchor_atoms_clean(ds, lf.1, crate::query::Side::After, src);
            lemma_texts_of_empty_texts(before, src);
            lemma_texts_of_empty_texts(after, src);
            lemma_texts_of_add(before, seq![AtomV::Leaf(lf.0, lf.1)], src);
            lemma_texts_of_add(before + seq![AtomV::Leaf(lf.0, lf.1)], after, src);
            assert(leaf_atoms(ds, lf, dels) == (before + seq![AtomV::Leaf(lf.0, lf.1)]) + after);
            assert(seq![AtomV::Leaf(lf.0, lf.1)].drop_last() =~= Seq::<AtomV>::empty());
            assert(seq![AtomV::Leaf(lf.0, lf.1)].last() == AtomV::Leaf(lf.0, lf.1));
            assert(texts_of(seq![AtomV::Leaf(lf.0, lf.1)], src) == texts_of(
                Seq::<AtomV>::empty(),
                src,
            ) + atom_text(AtomV::Leaf(lf.0, lf.1), src));
            assert(texts_of(seq![AtomV::Leaf(lf.0, lf.1)], src) =~= atom_text(
                AtomV::Leaf(lf.0, lf.1),
                src,
            ));
            assert(texts_of(build_atoms(leaves, ds, dels), src) =~= kept_texts(
                leaves,
                dels,
                src,
            ));
        }
    }
}

proof fn lemma_leaf_ranges_clean(t: SyntaxTree, src: Seq<char>, n: int)
    requires
        t.wf(src),
        0 <= n <= t.n(),
    ensures
        forall|j: int|
            0 <= j < leaf_ranges(t, n).len() ==> text_newline_free(
                atom_text(AtomV::Leaf((#[trigger] leaf_ranges(t, n)[j]).0, leaf_ranges(t, n)[j].1), src),
            ),
    decreases n,
{
    if n > 0 {
        lemma_leaf_ranges_clean(t, src, n - 1);
        let prev = leaf_ranges(t, n - 1);
        assert forall|j: int|
            0 <= j < leaf_ranges(t, n).len() implies text_newline_free(
            atom_text(AtomV::Leaf((#[trigger] leaf_ranges(t, n)[j]).0, leaf_ranges(t, n)[j].1), src),
        ) by {
            if j < prev.len() {
                assert(leaf_ranges(t, n)[j] == prev[j]);
            } else {
                assert(t.is_leaf(n - 1));
                assert(t.node_ok(src, n - 1));
                assert(t.leaf_ok(src, n - 1));
                let lf = leaf_ranges(t, n)[j];
                assert(lf == (t.nodes@[n - 1].start, t.nodes@[n - 1].end));
                let txt = atom_text(AtomV::Leaf(lf.0, lf.1), src);
                assert forall|q: int| 0 <= q < txt.len() implies txt[q] != '\n' by {
                    assert(txt[q] == src[lf.0 + q]);
                }
            }
        }
    }
}

proof fn lemma_build_newline_free(
    t: SyntaxTree,
    src: Seq<char>,
    ds: Seq<AnchoredV>,
    dels: Seq<(usize, usize)>,
)
    requires
        t.wf(src),
        dirs_literals_clean(ds),
    ensures
        atoms_newline_free(build_atoms(leaf_ranges(t, t.n()), ds, dels), src),
{
    lemma_leaf_ranges_clean(t, src, t.n());
    lemma_build_nl_free_rec(t, src, ds, dels, leaf_ranges(t, t.n()));
}

proof fn lemma_build_nl_free_rec(
    t: SyntaxTree,
    src: Seq<char>,
    ds: Seq<AnchoredV>,
    dels: Seq<(usize, usize)>,
    leaves: Seq<(usize, usize)>,
)
    requires
        dirs_literals_clean(ds),
        forall|j: int|
            0 <= j < leaves.len() ==> text_newline_free(
                atom_text(AtomV::Leaf((#[trigger] leaves[j]).0, leaves[j].1), src),
            ),
    ensures
        atoms_newline_free(build_atoms(leaves, ds, dels), src),
    decreases leaves.len(),
{
    if leaves.len() > 0 {
        assert(forall|j: int| 0 <= j < leaves.len() - 1 ==> leaves.drop_last()[j] == leaves[j]);
        lemma_build_nl_free_rec(t, src, ds, dels, leaves.drop_last());
        let lf = leaves.last();
        let prevatoms = build_atoms(leaves.drop_last(), ds, dels);
        let block = leaf_atoms(ds, lf, dels);
        lemma_anchor_atoms_nl_free(ds, lf.0, crate::query::Side::Before, src);
        lemma_anchor_atoms_nl_free(ds, lf.1, crate::query::Side::After, src);
        assert forall|j: int|
            0 <= j < build_atoms(leaves, ds, dels).len() implies text_newline_free(
            atom_text(#[trigger] build_atoms(leaves, ds, dels)[j], src),
        ) by {
            if j < prevatoms.len() {
                assert(build_atoms(leaves, ds, dels)[j] == prevatoms[j]);
            } else {
                let a = block[j - prevatoms.len()];
                assert(build_atoms(leaves, ds, dels)[j] == a);
                if a == AtomV::Leaf(lf.0, lf.1) {
                    assert(leaves[leaves.len() - 1] == lf);
                } else {
                    let before = anchor_atoms(resolved_at(ds, lf.0, crate::query::Side::Before));
                    let after = anchor_atoms(resolved_at(ds, lf.1, crate::query::Side::After));
                    if j - prevatoms.len() < before.len() {
                        assert(a == before[j - prevatoms.len()]);
                    } else {
                        assert(a == after[j - prevatoms.len() - before.len() - 1]);
                    }
                    assert(text_newline_free(atom_text(a, src)));
                }
            }
        }
    }
}

/// Text preservation, end to end: over a document without literal
/// captures, stripping all whitespace from an accepted pass's output
/// yields the same character sequence as stripping the whitespace from the
/// surviving source tokens — exactly the tokens not targeted by a
/// deletion, in order.
pub proof fn lemma_pass_text_preservation(src: Seq<char>, t: SyntaxTree, d: DocumentV, cfg: Config)
    requires
        doc_has_no_literals(d),
        t.n() <= usize::MAX,
        d.rules.len() <= usize::MAX,
    ensures
        (pass_spec(src, t, d, cfg) matches Ok(out) ==> strip_ws(out) == strip_ws(
            kept_texts(
                leaf_ranges(t, t.n()),
                collect_deletes(t, d.rules, match_all_spec(t, d)),
                src,
            ),
        )),
{
    if pass_spec(src, t, d, cfg) is Ok {
        let ms = match_all_spec(t, d);
        let ds = collect_anchors(t, d.rules, ms);
        let dels = collect_deletes(t, d.rules, ms);
        lemma_matches_upto_bounds(t, d.rules, t.n());
        lemma_collect_no_lit(t, d, ms);
        let atoms = build_spec(t, ds, dels)->Ok_0;
        assert(atoms == build_atoms(leaf_ranges(t, t.n()), ds, dels));
        lemma_render_text_preservation(atoms, src, cfg);
        lemma_build_texts(leaf_ranges(t, t.n()), ds, dels, src);
    }
}

/// Blank-line bound, end to end: over a well-formed tree and a document
/// whose literal captures insert no newline, an accepted pass never emits
/// more than the configured maximum of consecutive blank lines, however
/// many directives request them at any boundary.
pub proof fn lemma_pass_blank_bound(src: Seq<char>, t: SyntaxTree, d: DocumentV, cfg: Config)
    requires
        doc_literals_newline_free(d),
        t.n() <= usize::MAX,
        d.rules.len() <= usize::MAX,
    ensures
        (pass_spec(src, t, d, cfg) matches Ok(out) ==> no_long_nl_run(
            out,
            cfg.max_blank_lines as int,
        )),
{
    if pass_spec(src, t, d, cfg) is Ok {
        let ms = match_all_spec(t, d);
        let ds = collect_anchors(t, d.rules, ms);
        let dels = collect_deletes(t, d.rules, ms);
        lemma_matches_upto_bounds(t, d.rules, t.n());
        lemma_collect_lit_clean(t, d, ms);
        let atoms = build_spec(t, ds, dels)->Ok_0;
        lemma_build_newline_free(t, src, ds, dels);
        lemma_render_blank_bound(atoms, src, cfg);
    }
}

} // verus!
