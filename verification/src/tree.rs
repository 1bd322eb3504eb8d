//! An arena-style, read-only syntax tree.
//!
//! A parsed tree is handed to the pipeline as a flat arena of nodes; parent
//! back-references are index lookups rather than owning pointers.  The
//! leaves are the source tokens: their character ranges never overlap and
//! increase monotonically, and all whitespace between tokens belongs to no
//! leaf — the renderer re-derives every space and line break.  A token that
//! itself spans several lines is outside this model: well-formedness asks
//! that no leaf contain a newline.

use vstd::prelude::*;
use vstd::string::*;

verus! {

/// One node of the arena: a kind tag, a character range `[start, end)` into
/// the source, the parent's index, and the ordered child indices.
pub struct Node {
    pub kind: u64,
    pub start: usize,
    pub end: usize,
    pub parent: Option<usize>,
    pub children: Vec<usize>,
}

/// A parsed syntax tree: a flat arena of nodes.  A node with no children
/// is a leaf, that is, a source token.
pub struct SyntaxTree {
    pub nodes: Vec<Node>,
}

impl SyntaxTree {
    /// The number of nodes.
    pub open spec fn n(self) -> int {
        self.nodes@.len() as int
    }

    /// Whether node `i` is a leaf (a source token).
    pub open spec fn is_leaf(self, i: int) -> bool {
        self.nodes@[i].children@.len() == 0
    }

    /// Local well-formedness of node `i`: its range lies inside the
    /// source, its parent comes earlier in the arena and covers its range,
    /// and its child list points forward, in increasing order, at nodes
    /// that name it as parent.
    pub open spec fn node_ok(self, src: Seq<char>, i: int) -> bool {
        let nd = self.nodes@[i];
        &&& nd.start <= nd.end <= src.len()
        &&& (match nd.parent {
            Some(p) => 0 <= p < i && self.nodes@[p as int].start <= nd.start && nd.end
                <= self.nodes@[p as int].end,
            None => true,
        })
        &&& self.kids_ok(i)
    }

    /// The `k`-th child of node `i` points forward at a node that names
    /// `i` as its parent.
    pub open spec fn kid_ok(self, i: int, k: int) -> bool {
        let c = self.nodes@[i].children@[k];
        &&& i < c < self.n()
        &&& self.nodes@[c as int].parent == Some(i as usize)
    }

    /// The `k`-th child of node `i` comes before the next one.
    pub open spec fn kid_sorted(self, i: int, k: int) -> bool {
        self.nodes@[i].children@[k] < self.nodes@[i].children@[k + 1]
    }

    /// The child-list part of `node_ok`: children point forward, in
    /// increasing order, at nodes that name `i` as parent.
    pub open spec fn kids_ok(self, i: int) -> bool {
        let nd = self.nodes@[i];
        &&& (forall|k: int| 0 <= k < nd.children@.len() ==> #[trigger] self.kid_ok(i, k))
        &&& (forall|k: int| 0 <= k && k + 1 < nd.children@.len() ==> #[trigger] self.kid_sorted(i, k))
    }

    /// Checks `kids_ok` for one node.
    fn check_kids(&self, i: usize) -> (r: bool)
        requires
            i < self.nodes@.len(),
        ensures
            r == self.kids_ok(i as int),
    {
        let n: usize = self.nodes.len();
        let nc: usize = self.nodes[i].children.len();
        let mut k: usize = 0;
        while k < nc
            invariant
                k <= nc,
                i < n,
                n == self.nodes@.len(),
                nc == self.nodes@[i as int].children@.len(),
                forall|kk: int| 0 <= kk < k ==> #[trigger] self.kid_ok(i as int, kk),
                forall|kk: int| 0 <= kk && kk + 1 < k ==> #[trigger] self.kid_sorted(i as int, kk),
            decreases nc - k,
        {
            let c: usize = self.nodes[i].children[k];
            if !(i < c && c < n) {
                assert(!self.kid_ok(i as int, k as int));
                return false;
            }
            let pok: bool = match self.nodes[c].parent {
                Some(pp) => pp == i,
                None => false,
            };
            if !pok {
                assert(!self.kid_ok(i as int, k as int));
                return false;
            }
            if k > 0 {
                if !(self.nodes[i].children[k - 1] < c) {
                    assert(!self.kid_sorted(i as int, k - 1));
                    return false;
                }
            }
            assert(self.kid_ok(i as int, k as int));
            assert(k > 0 ==> self.kid_sorted(i as int, k - 1));
            k = k + 1;
        }
        true
    }

    /// Checks the newline-freedom of leaf `i`.
    fn check_leaf_text(&self, i: usize, src: &str) -> (r: bool)
        requires
            i < self.nodes@.len(),
            self.is_leaf(i as int),
            self.nodes@[i as int].start < self.nodes@[i as int].end,
            self.nodes@[i as int].end <= src@.len(),
        ensures
            r == self.leaf_ok(src@, i as int),
    {
        let hi: usize = self.nodes[i].end;
        let mut q: usize = self.nodes[i].start;
        while q < hi
            invariant
                i < self.nodes@.len(),
                self.is_leaf(i as int),
                hi == self.nodes@[i as int].end,
                self.nodes@[i as int].start <= q <= hi,
                self.nodes@[i as int].start < hi,
                hi <= src@.len(),
                forall|kk: int| self.nodes@[i as int].start <= kk < q ==> src@[kk] != '\n',
            decreases hi - q,
        {
            if src.get_char(q) == '\n' {
                assert(!self.leaf_ok(src@, i as int));
                return false;
            }
            q = q + 1;
        }
        true
    }

    /// Well-formedness of a leaf: a token is nonempty and holds no newline.
    pub open spec fn leaf_ok(self, src: Seq<char>, i: int) -> bool {
        self.is_leaf(i) ==> {
            &&& self.nodes@[i].start < self.nodes@[i].end
            &&& (forall|k: int|
                self.nodes@[i].start <= k < self.nodes@[i].end ==> src[k] != '\n')
        }
    }

    /// Leaf ranges never overlap and increase monotonically in arena
    /// order.
    pub open spec fn leaves_ordered(self) -> bool {
        forall|i: int, j: int|
            0 <= i < j < self.n() && self.is_leaf(i) && self.is_leaf(j)
                ==> self.nodes@[i].end <= self.nodes@[j].start
    }

    /// Well-formedness of the whole tree against its source text.
    pub open spec fn wf(self, src: Seq<char>) -> bool {
        &&& (forall|i: int| 0 <= i < self.n() ==> self.node_ok(src, i))
        &&& (forall|i: int| 0 <= i < self.n() ==> self.leaf_ok(src, i))
        &&& self.leaves_ordered()
    }

    /// Parent back-references always point at earlier arena entries, so
    /// walking them terminates.
    pub open spec fn parents_acyclic(self) -> bool {
        forall|j: int|
            0 <= j < self.n() ==> (match #[trigger] self.nodes@[j].parent {
                Some(p) => 0 <= p < j,
                None => true,
            })
    }

    /// A well-formed tree has acyclic parent back-references.
    pub proof fn lemma_wf_parents(self, src: Seq<char>)
        requires
            self.wf(src),
        ensures
            self.parents_acyclic(),
    {
        assert forall|j: int|
            0 <= j < self.n() implies (match #[trigger] self.nodes@[j].parent {
            Some(p) => 0 <= p < j,
            None => true,
        }) by {
            assert(self.node_ok(src, j));
        }
    }

    /// Whether some proper ancestor of node `i` has kind `kind`.
    pub open spec fn has_ancestor_of_kind(self, i: int, kind: u64) -> bool
        decreases i,
    {
        match self.nodes@[i].parent {
            None => false,
            Some(p) => if 0 <= p < i {
                self.nodes@[p as int].kind == kind || self.has_ancestor_of_kind(p as int, kind)
            } else {
                false
            },
        }
    }

    /// Walks the parent back-references looking for an enclosing node of
    /// the given kind.
    pub fn ancestor_of_kind(&self, i: usize, kind: u64) -> (r: bool)
        requires
            i < self.nodes@.len(),
            self.parents_acyclic(),
        ensures
            r == self.has_ancestor_of_kind(i as int, kind),
    {
        let mut cur: usize = i;
        loop
            invariant
                cur < self.nodes@.len(),
                self.parents_acyclic(),
                self.has_ancestor_of_kind(i as int, kind) == self.has_ancestor_of_kind(
                    cur as int,
                    kind,
                ),
            decreases cur,
        {
            match self.nodes[cur].parent {
                None => {
                    return false;
                },
                Some(p) => {
                    if self.nodes[p].kind == kind {
                        return true;
                    }
                    cur = p;
                },
            }
        }
    }

    /// Checks `wf` executably, so that a caller-built tree can be admitted
    /// into the pipeline without any trust.
    #[verifier::rlimit(100)]
    pub fn check(&self, src: &str) -> (r: bool)
        ensures
            r == self.wf(src@),
    {
        let n: usize = self.nodes.len();
        let srclen: usize = src.unicode_len();
        let mut i: usize = 0;
        while i < n
            invariant
                i <= n,
                n == self.nodes@.len(),
                srclen == src@.len(),
                forall|ii: int| 0 <= ii < i ==> self.node_ok(src@, ii),
                forall|ii: int| 0 <= ii < i ==> self.leaf_ok(src@, ii),
            decreases n - i,
        {
            if !(self.nodes[i].start <= self.nodes[i].end && self.nodes[i].end <= srclen) {
                assert(!self.node_ok(src@, i as int));
                return false;
            }
            match self.nodes[i].parent {
                Some(p) => {
                    if !(p < i && self.nodes[p].start <= self.nodes[i].start
                        && self.nodes[i].end <= self.nodes[p].end) {
                        assert(!self.node_ok(src@, i as int));
                        return false;
                    }
                },
                None => {},
            }
            if !self.check_kids(i) {
                assert(!self.node_ok(src@, i as int));
                return false;
            }
            if self.nodes[i].children.len() == 0 {
                if !(self.nodes[i].start < self.nodes[i].end) {
                    assert(self.is_leaf(i as int));
                    assert(!self.leaf_ok(src@, i as int));
                    return false;
                }
                if !self.check_leaf_text(i, src) {
                    return false;
                }
            }
            assert(self.node_ok(src@, i as int));
            assert(self.leaf_ok(src@, i as int));
            i = i + 1;
        }
        let mut a: usize = 0;
        while a < n
            invariant
                a <= n,
                n == self.nodes@.len(),
                forall|ii: int| 0 <= ii < n ==> self.node_ok(src@, ii),
                forall|ii: int| 0 <= ii < n ==> self.leaf_ok(src@, ii),
                forall|ii: int, jj: int|
                    0 <= ii < a && ii < jj < n && self.is_leaf(ii) && self.is_leaf(jj)
                        ==> self.nodes@[ii].end <= self.nodes@[jj].start,
            decreases n - a,
        {
            let mut b: usize = a + 1;
            while b < n
                invariant
                    a < b <= n,
                    a < n,
                    n == self.nodes@.len(),
                    forall|jj: int|
                        a < jj < b && self.is_leaf(a as int) && self.is_leaf(jj)
                            ==> self.nodes@[a as int].end <= self.nodes@[jj].start,
                decreases n - b,
            {
                if self.nodes[a].children.len() == 0 && self.nodes[b].children.len() == 0 {
                    if !(self.nodes[a].end <= self.nodes[b].start) {
                        assert(self.is_leaf(a as int));
                        assert(self.is_leaf(b as int));
                        assert(!self.leaves_ordered());
                        return false;
                    }
                }
                b = b + 1;
            }
            a = a + 1;
        }
        true
    }
}

} // verus!
