//! The pattern document and the query engine.
//!
//! A pattern document is an ordered sequence of rules; each rule is a
//! tree-shape predicate (a node kind, optionally restricted to nodes inside
//! an enclosing kind) plus named capture slots.  Each capture name has a
//! fixed formatting semantic; a rule that references an unbound capture
//! name is rejected when the document is loaded, before any source is
//! processed.
//!
//! Matching is a single pass over the arena in depth-first source order: at
//! each node the rules are tried in document order, and the first rule that
//! matches claims the node and binds its captures.  A claimed node is
//! skipped by later rules; unclaimed descendants remain eligible, being
//! separate arena entries.

use vstd::prelude::*;
use vstd::string::*;
use crate::error::{FormatterError, FormatterErrorV};
use crate::strutil::str_eq;
use crate::tree::SyntaxTree;

verus! {

/// The side of a node boundary a directive is anchored to.
#[derive(Clone, Copy, Debug, PartialEq, Eq, Structural)]
pub enum Side {
    Before,
    After,
}

/// A formatting directive, anchored at render time to a token boundary.
#[derive(Clone, Debug)]
pub enum Directive {
    InsertSpace,
    InsertHardline,
    InsertBlankLines(u64),
    IndentStart,
    IndentEnd,
    NoSpace,
    Delete,
    Literal(String),
}

/// Mathematical image of a `Directive`.
pub enum DirectiveV {
    InsertSpace,
    InsertHardline,
    InsertBlankLines(u64),
    IndentStart,
    IndentEnd,
    NoSpace,
    Delete,
    Literal(Seq<char>),
}

impl View for Directive {
    type V = DirectiveV;

    open spec fn view(&self) -> DirectiveV {
        match self {
            Directive::InsertSpace => DirectiveV::InsertSpace,
            Directive::InsertHardline => DirectiveV::InsertHardline,
            Directive::InsertBlankLines(n) => DirectiveV::InsertBlankLines(*n),
            Directive::IndentStart => DirectiveV::IndentStart,
            Directive::IndentEnd => DirectiveV::IndentEnd,
            Directive::NoSpace => DirectiveV::NoSpace,
            Directive::Delete => DirectiveV::Delete,
            Directive::Literal(s) => DirectiveV::Literal(s@),
        }
    }
}

impl Directive {
    /// A copy with the same mathematical image (the derived clone carries
    /// no specification).
    pub fn dup(&self) -> (r: Directive)
        ensures
            r@ == self@,
    {
        match self {
            Directive::InsertSpace => Directive::InsertSpace,
            Directive::InsertHardline => Directive::InsertHardline,
            Directive::InsertBlankLines(n) => Directive::InsertBlankLines(*n),
            Directive::IndentStart => Directive::IndentStart,
            Directive::IndentEnd => Directive::IndentEnd,
            Directive::NoSpace => Directive::NoSpace,
            Directive::Delete => Directive::Delete,
            Directive::Literal(s) => Directive::Literal(s.clone()),
        }
    }
}

/// One capture slot as it stands in a raw, not yet validated document:
/// a name, a count (used by the blank-line captures), and a text (used by
/// the literal captures).
#[derive(Clone, Debug)]
pub struct RawCapture {
    pub name: String,
    pub count: u64,
    pub text: String,
}

/// One rule of a raw pattern document.
#[derive(Clone, Debug)]
pub struct RawRule {
    pub kind: u64,
    pub within: Option<u64>,
    pub captures: Vec<RawCapture>,
}

/// A validated capture: either a directive anchored to one side of the
/// matched node, or the deletion of the matched node's text.
#[derive(Clone, Debug)]
pub enum Op {
    Anchored(Side, Directive),
    DeleteNode,
}

/// Mathematical image of an `Op`.
pub enum OpV {
    Anchored(Side, DirectiveV),
    DeleteNode,
}

impl View for Op {
    type V = OpV;

    open spec fn view(&self) -> OpV {
        match self {
            Op::Anchored(s, d) => OpV::Anchored(*s, d@),
            Op::DeleteNode => OpV::DeleteNode,
        }
    }
}

/// A validated rule: the tree-shape predicate plus its capture semantics.
#[derive(Clone, Debug)]
pub struct Rule {
    pub kind: u64,
    pub within: Option<u64>,
    pub ops: Vec<Op>,
}

/// Mathematical image of a `Rule`.
#[verifier::ext_equal]
pub struct RuleV {
    pub kind: u64,
    pub within: Option<u64>,
    pub ops: Seq<OpV>,
}

impl View for Rule {
    type V = RuleV;

    open spec fn view(&self) -> RuleV {
        RuleV { kind: self.kind, within: self.within, ops: self.ops@.map_values(|o: Op| o@) }
    }
}

/// A validated pattern document: an ordered sequence of rules, loaded once
/// per job and read-only thereafter.
#[derive(Clone, Debug)]
pub struct Document {
    pub rules: Vec<Rule>,
}

/// Mathematical image of a `Document`.
#[verifier::ext_equal]
pub struct DocumentV {
    pub rules: Seq<RuleV>,
}

impl View for Document {
    type V = DocumentV;

    open spec fn view(&self) -> DocumentV {
        DocumentV { rules: self.rules@.map_values(|r: Rule| r@) }
    }
}

/// The fixed semantics of each capture name; an unknown name yields `None`.
pub open spec fn op_of_capture(name: Seq<char>, count: u64, text: Seq<char>) -> Option<OpV> {
    if name == "append_space"@ {
        Some(OpV::Anchored(Side::After, DirectiveV::InsertSpace))
    } else if name == "prepend_space"@ {
        Some(OpV::Anchored(Side::Before, DirectiveV::InsertSpace))
    } else if name == "append_hardline"@ {
        Some(OpV::Anchored(Side::After, DirectiveV::InsertHardline))
    } else if name == "prepend_hardline"@ {
        Some(OpV::Anchored(Side::Before, DirectiveV::InsertHardline))
    } else if name == "append_blank_lines"@ {
        Some(OpV::Anchored(Side::After, DirectiveV::InsertBlankLines(count)))
    } else if name == "prepend_blank_lines"@ {
        Some(OpV::Anchored(Side::Before, DirectiveV::InsertBlankLines(count)))
    } else if name == "append_indent_start"@ {
        Some(OpV::Anchored(Side::After, DirectiveV::IndentStart))
    } else if name == "append_indent_end"@ {
        Some(OpV::Anchored(Side::After, DirectiveV::IndentEnd))
    } else if name == "prepend_indent_start"@ {
        Some(OpV::Anchored(Side::Before, DirectiveV::IndentStart))
    } else if name == "prepend_indent_end"@ {
        Some(OpV::Anchored(Side::Before, DirectiveV::IndentEnd))
    } else if name == "append_no_space"@ {
        Some(OpV::Anchored(Side::After, DirectiveV::NoSpace))
    } else if name == "prepend_no_space"@ {
        Some(OpV::Anchored(Side::Before, DirectiveV::NoSpace))
    } else if name == "append_literal"@ {
        Some(OpV::Anchored(Side::After, DirectiveV::Literal(text)))
    } else if name == "prepend_literal"@ {
        Some(OpV::Anchored(Side::Before, DirectiveV::Literal(text)))
    } else if name == "delete"@ {
        Some(OpV::DeleteNode)
    } else {
        None
    }
}

/// Whether a raw capture references a bound capture name.
pub open spec fn capture_valid(c: RawCapture) -> bool {
    op_of_capture(c.name@, c.count, c.text@) is Some
}

/// Whether every capture of a raw rule is bound.
pub open spec fn rule_valid(r: RawRule) -> bool {
    forall|k: int| 0 <= k < r.captures@.len() ==> capture_valid(#[trigger] r.captures@[k])
}

/// Whether a whole raw document is valid.
pub open spec fn document_valid(rs: Seq<RawRule>) -> bool {
    forall|i: int| 0 <= i < rs.len() ==> rule_valid(#[trigger] rs[i])
}

/// The loaded image of one valid raw rule.
pub open spec fn loaded_rule(r: RawRule) -> RuleV {
    RuleV {
        kind: r.kind,
        within: r.within,
        ops: Seq::new(
            r.captures@.len(),
            |k: int|
                match op_of_capture(
                    r.captures@[k].name@,
                    r.captures@[k].count,
                    r.captures@[k].text@,
                ) {
                    Some(o) => o,
                    None => OpV::DeleteNode,
                },
        ),
    }
}

/// The loaded image of a valid raw document.
pub open spec fn loaded_doc(rs: Seq<RawRule>) -> DocumentV {
    DocumentV { rules: rs.map_values(|r: RawRule| loaded_rule(r)) }
}

/// Maps one raw capture to its semantics, or reports that the name is
/// unbound.
fn load_capture(c: &RawCapture) -> (r: Option<Op>)
    ensures
        (match r {
            Some(op) => op_of_capture(c.name@, c.count, c.text@) == Some(op@),
            None => op_of_capture(c.name@, c.count, c.text@) is None,
        }),
{
    let n: &str = c.name.as_str();
    if str_eq(n, "append_space") {
        Some(Op::Anchored(Side::After, Directive::InsertSpace))
    } else if str_eq(n, "prepend_space") {
        Some(Op::Anchored(Side::Before, Directive::InsertSpace))
    } else if str_eq(n, "append_hardline") {
        Some(Op::Anchored(Side::After, Directive::InsertHardline))
    } else if str_eq(n, "prepend_hardline") {
        Some(Op::Anchored(Side::Before, Directive::InsertHardline))
    } else if str_eq(n, "append_blank_lines") {
        Some(Op::Anchored(Side::After, Directive::InsertBlankLines(c.count)))
    } else if str_eq(n, "prepend_blank_lines") {
        Some(Op::Anchored(Side::Before, Directive::InsertBlankLines(c.count)))
    } else if str_eq(n, "append_indent_start") {
        Some(Op::Anchored(Side::After, Directive::IndentStart))
    } else if str_eq(n, "append_indent_end") {
        Some(Op::Anchored(Side::After, Directive::IndentEnd))
    } else if str_eq(n, "prepend_indent_start") {
        Some(Op::Anchored(Side::Before, Directive::IndentStart))
    } else if str_eq(n, "prepend_indent_end") {
        Some(Op::Anchored(Side::Before, Directive::IndentEnd))
    } else if str_eq(n, "append_no_space") {
        Some(Op::Anchored(Side::After, Directive::NoSpace))
    } else if str_eq(n, "prepend_no_space") {
        Some(Op::Anchored(Side::Before, Directive::NoSpace))
    } else if str_eq(n, "append_literal") {
        Some(Op::Anchored(Side::After, Directive::Literal(c.text.clone())))
    } else if str_eq(n, "prepend_literal") {
        Some(Op::Anchored(Side::Before, Directive::Literal(c.text.clone())))
    } else if str_eq(n, "delete") {
        Some(Op::DeleteNode)
    } else {
        None
    }
}

/// Compiles a raw pattern document, validating every capture name.  An
/// unbound name fails the whole job with a `Query` error before any
/// matching occurs.
pub fn load_document(raw: &Vec<RawRule>) -> (r: Result<Document, FormatterError>)
    ensures
        (match r {
            Ok(d) => document_valid(raw@) && d@ == loaded_doc(raw@),
            Err(e) => !document_valid(raw@) && (exists|i: int, k: int|
                0 <= i < raw@.len() && 0 <= k < raw@[i].captures@.len() && !capture_valid(
                    raw@[i].captures@[k],
                ) && e@ == FormatterErrorV::Query(
                    "unknown capture name in pattern document: '"@ + raw@[i].captures@[k].name@
                        + "'"@,
                )),
        }),
{
    let mut rules: Vec<Rule> = Vec::new();
    let nr: usize = raw.len();
    let mut i: usize = 0;
    while i < nr
        invariant
            i <= nr,
            nr == raw@.len(),
            rules@.len() == i,
            forall|ii: int| 0 <= ii < i ==> rule_valid(#[trigger] raw@[ii]),
            forall|ii: int| 0 <= ii < i ==> #[trigger] rules@[ii]@ == loaded_rule(raw@[ii]),
        decreases nr - i,
    {
        let nc: usize = raw[i].captures.len();
        let mut ops: Vec<Op> = Vec::new();
        let mut k: usize = 0;
        while k < nc
            invariant
                k <= nc,
                i < nr,
                nr == raw@.len(),
                nc == raw@[i as int].captures@.len(),
                ops@.len() == k,
                forall|kk: int| 0 <= kk < k ==> capture_valid(#[trigger] raw@[i as int].captures@[kk]),
                forall|kk: int|
                    0 <= kk < k ==> op_of_capture(
                        raw@[i as int].captures@[kk].name@,
                        raw@[i as int].captures@[kk].count,
                        raw@[i as int].captures@[kk].text@,
                    ) == Some(#[trigger] ops@[kk]@),
            decreases nc - k,
        {
            match load_capture(&raw[i].captures[k]) {
                Some(op) => {
                    ops.push(op);
                },
                None => {
                    assert(!capture_valid(raw@[i as int].captures@[k as int]));
                    assert(!rule_valid(raw@[i as int]));
                    return Err(FormatterError::Query(
                        String::from_str("unknown capture name in pattern document: '").concat(
                            raw[i].captures[k].name.as_str(),
                        ).concat("'"),
                    ));
                },
            }
            k = k + 1;
        }
        let rule = Rule { kind: raw[i].kind, within: raw[i].within, ops };
        proof {
            assert(rule@.ops =~= loaded_rule(raw@[i as int]).ops);
            assert(rule@ =~= loaded_rule(raw@[i as int]));
        }
        rules.push(rule);
        i = i + 1;
    }
    let d = Document { rules };
    proof {
        assert(d@.rules =~= loaded_doc(raw@).rules);
        assert(d@ =~= loaded_doc(raw@));
    }
    Ok(d)
}

/// Whether one rule structurally matches node `i`: the kind tag agrees and,
/// where the rule asks for an enclosing kind, some ancestor carries it.
pub open spec fn rule_matches(t: SyntaxTree, i: int, r: RuleV) -> bool {
    &&& t.nodes@[i].kind == r.kind
    &&& (match r.within {
        None => true,
        Some(k) => t.has_ancestor_of_kind(i, k),
    })
}

/// The first rule, from position `j` on, that matches node `i`.
pub open spec fn first_rule_from(t: SyntaxTree, i: int, rules: Seq<RuleV>, j: int) -> Option<int>
    decreases rules.len() - j,
{
    if j < 0 || j >= rules.len() {
        None
    } else if rule_matches(t, i, rules[j]) {
        Some(j)
    } else {
        first_rule_from(t, i, rules, j + 1)
    }
}

/// The first rule, in document order, that matches node `i`.
pub open spec fn first_rule(t: SyntaxTree, i: int, rules: Seq<RuleV>) -> Option<int> {
    first_rule_from(t, i, rules, 0)
}

/// `first_rule_from` finds the first match at or after `j`.
pub proof fn lemma_first_rule_from(t: SyntaxTree, i: int, rules: Seq<RuleV>, j: int)
    requires
        0 <= j,
    ensures
        (match first_rule_from(t, i, rules, j) {
            Some(r) => j <= r < rules.len() && rule_matches(t, i, rules[r]) && (forall|jj: int|
                j <= jj < r ==> !rule_matches(t, i, rules[jj])),
            None => forall|jj: int| j <= jj < rules.len() ==> !rule_matches(t, i, rules[jj]),
        }),
    decreases rules.len() - j,
{
    if j < rules.len() && !rule_matches(t, i, rules[j]) {
        lemma_first_rule_from(t, i, rules, j + 1);
    }
}

/// One match: the claimed node and the rule, first in document order, that
/// claimed it.
#[derive(Clone, Copy, Debug, PartialEq, Eq, Structural)]
pub struct Match {
    pub node: usize,
    pub rule: usize,
}

/// The ordered match sequence over the first `n` arena entries.
pub open spec fn matches_upto(t: SyntaxTree, rules: Seq<RuleV>, n: int) -> Seq<Match>
    decreases n,
{
    if n <= 0 {
        Seq::empty()
    } else {
        matches_upto(t, rules, n - 1) + (match first_rule(t, n - 1, rules) {
            Some(r) => seq![Match { node: (n - 1) as usize, rule: r as usize }],
            None => Seq::empty(),
        })
    }
}

/// The ordered match sequence of a whole document over a whole tree.
pub open spec fn match_all_spec(t: SyntaxTree, d: DocumentV) -> Seq<Match> {
    matches_upto(t, d.rules, t.n())
}

/// Every match points inside the arena and inside the rule list, and names
/// a rule that matches its node.
pub proof fn lemma_matches_upto_bounds(t: SyntaxTree, rules: Seq<RuleV>, n: int)
    requires
        n <= t.n(),
        n <= usize::MAX,
        rules.len() <= usize::MAX,
    ensures
        forall|m: int|
            0 <= m < matches_upto(t, rules, n).len() ==> {
                let mt = #[trigger] matches_upto(t, rules, n)[m];
                mt.node < n && mt.rule < rules.len() && rule_matches(t, mt.node as int, rules[mt.rule as int])
            },
    decreases n,
{
    if n > 0 {
        lemma_matches_upto_bounds(t, rules, n - 1);
        lemma_first_rule_from(t, n - 1, rules, 0);
        let prev = matches_upto(t, rules, n - 1);
        let cur = matches_upto(t, rules, n);
        assert forall|m: int| 0 <= m < cur.len() implies {
            let mt = #[trigger] cur[m];
            mt.node < n && mt.rule < rules.len() && rule_matches(t, mt.node as int, rules[mt.rule as int])
        } by {
            if m < prev.len() {
                assert(cur[m] == prev[m]);
            } else {
                let fr = first_rule(t, n - 1, rules);
                assert(fr is Some);
                let r = fr.unwrap();
                assert(cur[m] == Match { node: (n - 1) as usize, rule: r as usize });
                assert(0 <= r < rules.len());
                assert(rule_matches(t, n - 1, rules[r]));
            }
        }
    }
}

/// Finds the first rule, in document order, that matches node `i`.
fn find_rule(t: &SyntaxTree, i: usize, doc: &Document) -> (r: Option<usize>)
    requires
        i < t.nodes@.len(),
        t.parents_acyclic(),
    ensures
        (match r {
            Some(j) => first_rule(*t, i as int, doc@.rules) == Some(j as int),
            None => first_rule(*t, i as int, doc@.rules) is None,
        }),
{
    proof {
        lemma_first_rule_from(*t, i as int, doc@.rules, 0);
    }
    let nr: usize = doc.rules.len();
    let mut j: usize = 0;
    while j < nr
        invariant
            j <= nr,
            i < t.nodes@.len(),
            t.parents_acyclic(),
            nr == doc@.rules.len(),
            forall|jj: int| 0 <= jj < j ==> !rule_matches(*t, i as int, doc@.rules[jj]),
        decreases nr - j,
    {
        let kind_ok: bool = t.nodes[i].kind == doc.rules[j].kind;
        let within_ok: bool = if kind_ok {
            match doc.rules[j].within {
                None => true,
                Some(k) => t.ancestor_of_kind(i, k),
            }
        } else {
            false
        };
        if kind_ok && within_ok {
            proof {
                assert(rule_matches(*t, i as int, doc@.rules[j as int]));
                lemma_first_rule_from(*t, i as int, doc@.rules, 0);
                let r = first_rule(*t, i as int, doc@.rules);
                if r is Some {
                    let rj = r.unwrap();
                    if rj < j {
                        assert(!rule_matches(*t, i as int, doc@.rules[rj]));
                    } else if rj > j {
                        assert(!rule_matches(*t, i as int, doc@.rules[j as int]));
                    }
                }
            }
            return Some(j);
        }
        j = j + 1;
    }
    proof {
        lemma_first_rule_from(*t, i as int, doc@.rules, 0);
        let r = first_rule(*t, i as int, doc@.rules);
        if r is Some {
            let rj = r.unwrap();
            assert(!rule_matches(*t, i as int, doc@.rules[rj]));
        }
    }
    None
}

/// Matches the whole document against the whole tree: one pass in
/// depth-first source order, first rule in document order claiming each
/// node.  Pure and deterministic given the tree and the document.
pub fn match_all(t: &SyntaxTree, doc: &Document) -> (r: Vec<Match>)
    requires
        t.parents_acyclic(),
    ensures
        r@ == match_all_spec(*t, doc@),
{
    let n: usize = t.nodes.len();
    let mut out: Vec<Match> = Vec::new();
    let mut i: usize = 0;
    while i < n
        invariant
            i <= n,
            n == t.nodes@.len(),
            t.parents_acyclic(),
            out@ == matches_upto(*t, doc@.rules, i as int),
        decreases n - i,
    {
        match find_rule(t, i, doc) {
            Some(j) => {
                out.push(Match { node: i, rule: j });
            },
            None => {},
        }
        proof {
            assert(out@ =~= matches_upto(*t, doc@.rules, i + 1));
        }
        i = i + 1;
    }
    out
}

} // verus!
