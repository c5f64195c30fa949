use vstd::prelude::*;
use crate::node::{Class, Node};
use crate::unionfind::{merged_roots, roots_ok};

verus! {

/// Mathematical value of an e-graph.
pub struct Graph {
    /// The representative of every id.
    pub roots: Seq<usize>,
    /// The hash-cons table.
    pub memo: Map<Node, usize>,
    /// The classes, by representative.
    pub classes: Map<usize, Class>,
}

/// `n` with every argument replaced by its representative under `roots`.
pub open spec fn canon_by(roots: Seq<usize>, n: Node) -> Node {
    Node { head: n.head, args: Seq::new(n.args.len(), |j: int| roots[n.args[j] as int]) }
}

impl Graph {
    /// The representative of `id`.
    pub open spec fn find(self, id: usize) -> usize {
        self.roots[id as int]
    }

    /// Whether `id` is the representative of a class.
    pub open spec fn is_root(self, id: usize) -> bool {
        id < self.roots.len() && self.roots[id as int] == id
    }

    /// Whether every argument of `n` is an id of this graph.
    pub open spec fn node_ok(self, n: Node) -> bool {
        forall|j: int| 0 <= j < n.args.len() ==> (#[trigger] n.args[j]) < self.roots.len()
    }

    /// Whether every argument of `n` is a representative.
    pub open spec fn canonical(self, n: Node) -> bool {
        forall|j: int| 0 <= j < n.args.len() ==> self.is_root(#[trigger] n.args[j])
    }

    /// `n` with every argument replaced by its representative.
    pub open spec fn canon(self, n: Node) -> Node {
        canon_by(self.roots, n)
    }

    /// The class that the hash-cons table holds for the canonical form of `n`.
    pub open spec fn lookup(self, n: Node) -> Option<usize> {
        if self.memo.contains_key(self.canon(n)) {
            Some(self.find(self.memo[self.canon(n)]))
        } else {
            None
        }
    }

    /// Whether `a` and `b` have the same operator and pairwise equivalent arguments.
    pub open spec fn congruent(self, a: Node, b: Node) -> bool {
        &&& a.head == b.head
        &&& a.args.len() == b.args.len()
        &&& forall|j: int|
            0 <= j < a.args.len() ==> self.find(#[trigger] a.args[j]) == self.find(b.args[j])
    }

    /// Whether class `k` has a node at place `i`.
    pub open spec fn has_node(self, k: usize, i: int) -> bool {
        self.classes.contains_key(k) && 0 <= i < self.classes[k].nodes.len()
    }

    /// The node of class `k` at place `i`.
    pub open spec fn node_at(self, k: usize, i: int) -> Node {
        self.classes[k].nodes[i]
    }

    /// Whether class `k` has a parent entry at place `l`.
    pub open spec fn has_parent(self, k: usize, l: int) -> bool {
        self.classes.contains_key(k) && 0 <= l < self.classes[k].parents.len()
    }

    /// The parent entry of class `k` at place `l`.
    pub open spec fn parent_at(self, k: usize, l: int) -> (Node, usize) {
        self.classes[k].parents[l]
    }

    /// Whether `n` is a member of class `k`.
    pub open spec fn in_class(self, k: usize, n: Node) -> bool {
        exists|i: int| #[trigger] self.has_node(k, i) && self.node_at(k, i) == n
    }

    /// Whether the class of representative `r` waits for repair under `marks`.
    pub open spec fn pending(self, marks: Seq<usize>, r: usize) -> bool {
        exists|d: int| 0 <= d < marks.len() && self.find(#[trigger] marks[d]) == r
    }

    /// An argument is settled when it is a representative or its class waits for repair.
    pub open spec fn arg_settled(self, marks: Seq<usize>, x: usize) -> bool {
        self.is_root(x) || self.pending(marks, self.find(x))
    }

    /// Whether every argument of `n` is settled.
    pub open spec fn settled(self, marks: Seq<usize>, n: Node) -> bool {
        forall|j: int| 0 <= j < n.args.len() ==> self.arg_settled(marks, #[trigger] n.args[j])
    }

    /// Whether some argument of `n` lies in a class that waits for repair.
    pub open spec fn touches(self, marks: Seq<usize>, n: Node) -> bool {
        exists|j: int| 0 <= j < n.args.len() && self.pending(marks, self.find(#[trigger] n.args[j]))
    }

    /// Whether the hash-cons table sends `n` to class `k`.
    pub open spec fn keyed(self, n: Node, k: usize) -> bool {
        self.memo.contains_key(n) && self.find(self.memo[n]) == k
    }

    /// Whether the parents of class `c` list a node congruent to `n` as a member of class `k`.
    pub open spec fn listed(self, c: usize, n: Node, k: usize) -> bool {
        exists|l: int| #[trigger]
            self.has_parent(c, l) && self.find(self.parent_at(c, l).1) == k && self.congruent(
                self.parent_at(c, l).0,
                n,
            )
    }

    /// Whether every class among the arguments of `n` lists `n` as a member of class `k`.
    pub open spec fn all_listed(self, n: Node, k: usize) -> bool {
        forall|j: int|
            0 <= j < n.args.len() ==> self.listed(self.find(#[trigger] n.args[j]), n, k)
    }

    /// Every id that occurs anywhere is an id of this graph, and the classes
    /// are keyed by exactly the representatives.
    pub open spec fn ids_ok(self, marks: Seq<usize>) -> bool {
        &&& roots_ok(self.roots)
        &&& forall|d: int| 0 <= d < marks.len() ==> (#[trigger] marks[d]) < self.roots.len()
        &&& forall|n: Node| #[trigger]
            self.memo.contains_key(n) ==> self.node_ok(n) && self.memo[n] < self.roots.len()
        &&& forall|k: usize| #[trigger] self.classes.contains_key(k) <==> self.is_root(k)
        &&& forall|k: usize, i: int| #[trigger]
            self.has_node(k, i) ==> self.node_ok(self.node_at(k, i))
        &&& forall|k: usize, l: int| #[trigger]
            self.has_parent(k, l) ==> self.node_ok(self.parent_at(k, l).0) && self.parent_at(
                k,
                l,
            ).1 < self.roots.len()
    }

    /// A member node has a stale argument only where the class of that
    /// argument waits for repair.
    pub open spec fn canon_ok(self, marks: Seq<usize>) -> bool {
        forall|k: usize, i: int| #[trigger]
            self.has_node(k, i) ==> self.settled(marks, self.node_at(k, i))
    }

    /// Every key of the hash-cons table is a member of the class it is sent to.
    pub open spec fn memo_sound(self) -> bool {
        forall|n: Node| #[trigger]
            self.memo.contains_key(n) ==> self.in_class(self.find(self.memo[n]), n)
    }

    /// Every member node is sent to its class by the hash-cons table, unless
    /// it has an argument in a class that waits for repair.
    pub open spec fn memo_complete(self, marks: Seq<usize>) -> bool {
        forall|k: usize, i: int| #[trigger]
            self.has_node(k, i) ==> self.touches(marks, self.node_at(k, i)) || self.keyed(
                self.node_at(k, i),
                k,
            )
    }

    /// Every member node is listed among the parents of each of its argument classes.
    pub open spec fn parents_ok(self) -> bool {
        forall|k: usize, i: int| #[trigger]
            self.has_node(k, i) ==> self.all_listed(self.node_at(k, i), k)
    }

    /// What holds of an e-graph at all times, where `marks` names the classes
    /// that wait for repair.
    pub open spec fn inv(self, marks: Seq<usize>) -> bool {
        &&& self.ids_ok(marks)
        &&& self.canon_ok(marks)
        &&& self.memo_sound()
        &&& self.memo_complete(marks)
        &&& self.parents_ok()
    }

    /// What holds after a rebuild: the invariant, with nothing waiting for repair.
    pub open spec fn clean(self) -> bool {
        self.inv(Seq::empty())
    }

    /// Whether every member of class `k` is canonical and sent to `k` by the
    /// hash-cons table.
    pub open spec fn class_done(self, k: usize) -> bool {
        forall|i: int| #[trigger]
            self.has_node(k, i) ==> self.canonical(self.node_at(k, i)) && self.keyed(
                self.node_at(k, i),
                k,
            )
    }

    /// Whether every node with an argument in class `s` is canonical and sent
    /// to its own class by the hash-cons table.
    pub open spec fn resolved(self, s: usize) -> bool {
        forall|k: usize, i: int, j: int|
            #![trigger self.has_node(k, i), self.node_at(k, i).args[j]]
            self.has_node(k, i) && 0 <= j < self.node_at(k, i).args.len() && self.find(
                self.node_at(k, i).args[j],
            ) == s ==> self.canonical(self.node_at(k, i)) && self.keyed(self.node_at(k, i), k)
    }
}

/// What canonical forms are made of.
pub proof fn lemma_canon(g: Graph, n: Node)
    requires
        roots_ok(g.roots),
        g.node_ok(n),
    ensures
        g.node_ok(g.canon(n)),
        g.canonical(g.canon(n)),
        g.congruent(n, g.canon(n)),
        g.congruent(g.canon(n), n),
        g.canonical(n) <==> g.canon(n) == n,
{
    let c = g.canon(n);
    assert forall|j: int| 0 <= j < c.args.len() implies g.is_root(#[trigger] c.args[j]) by {
        let x = n.args[j];
        assert(g.roots[x as int] <= x);
    }
    assert forall|j: int| 0 <= j < n.args.len() implies g.find(#[trigger] n.args[j]) == g.find(
        c.args[j],
    ) by {
        let x = n.args[j];
        assert(g.roots[x as int] <= x);
    }
    assert forall|j: int| 0 <= j < c.args.len() implies g.find(#[trigger] c.args[j]) == g.find(
        n.args[j],
    ) by {
        let x = n.args[j];
        assert(g.roots[x as int] <= x);
    }
    if g.canonical(n) {
        assert forall|j: int| 0 <= j < n.args.len() implies c.args[j] == n.args[j] by {
            assert(g.is_root(n.args[j]));
        }
        assert(c.args =~= n.args);
    }
    if c == n {
        assert forall|j: int| 0 <= j < n.args.len() implies g.is_root(#[trigger] n.args[j]) by {
            assert(c.args[j] == n.args[j]);
            assert(g.is_root(c.args[j]));
        }
    }
}

/// Congruence is an equivalence.
pub proof fn lemma_congruent(g: Graph, a: Node, b: Node, c: Node)
    ensures
        g.congruent(a, a),
        g.congruent(a, b) ==> g.congruent(b, a),
        g.congruent(a, b) && g.congruent(b, c) ==> g.congruent(a, c),
{
    if g.congruent(a, b) {
        assert forall|j: int| 0 <= j < b.args.len() implies g.find(#[trigger] b.args[j]) == g.find(
            a.args[j],
        ) by {
            assert(g.find(a.args[j]) == g.find(b.args[j]));
        }
        if g.congruent(b, c) {
            assert forall|j: int| 0 <= j < a.args.len() implies g.find(#[trigger] a.args[j])
                == g.find(c.args[j]) by {
                assert(g.find(b.args[j]) == g.find(c.args[j]));
            }
        }
    }
}

/// The invariant survives when more classes wait for repair.
pub proof fn lemma_weaken(g: Graph, before: Seq<usize>, after: Seq<usize>)
    requires
        g.inv(before),
        forall|d: int| 0 <= d < after.len() ==> (#[trigger] after[d]) < g.roots.len(),
        forall|r: usize| #[trigger] g.pending(before, r) ==> g.pending(after, r),
    ensures
        g.inv(after),
{
    assert forall|k: usize, i: int| #[trigger] g.has_node(k, i) implies g.settled(
        after,
        g.node_at(k, i),
    ) by {
        let n = g.node_at(k, i);
        assert(g.settled(before, n));
        assert forall|j: int| 0 <= j < n.args.len() implies g.arg_settled(
            after,
            #[trigger] n.args[j],
        ) by {
            assert(g.arg_settled(before, n.args[j]));
        }
    }
    assert forall|k: usize, i: int| #[trigger] g.has_node(k, i) implies g.touches(
        after,
        g.node_at(k, i),
    ) || g.keyed(g.node_at(k, i), k) by {
        let n = g.node_at(k, i);
        if g.touches(before, n) {
            let j = choose|j: int|
                0 <= j < n.args.len() && g.pending(before, g.find(#[trigger] n.args[j]));
            assert(g.pending(after, g.find(n.args[j])));
        }
    }
}

/// The graph in which the node of class `c` at place `i` has given way to its
/// canonical form, in the class and in the hash-cons table.
pub open spec fn rekeyed(g: Graph, c: usize, i: int) -> Graph {
    let t = g.node_at(c, i);
    let tc = g.canon(t);
    let m1 = if tc == t {
        g.memo
    } else {
        g.memo.remove(t)
    };
    Graph {
        roots: g.roots,
        memo: m1.insert(tc, c),
        classes: g.classes.insert(
            c,
            Class { nodes: g.classes[c].nodes.update(i, tc), parents: g.classes[c].parents },
        ),
    }
}

/// Which nodes and parents a graph has after `rekeyed`.
pub proof fn lemma_rekeyed_shape(g: Graph, c: usize, i: int)
    requires
        g.has_node(c, i),
    ensures
        forall|k: usize| #[trigger]
            rekeyed(g, c, i).classes.contains_key(k) <==> g.classes.contains_key(k),
        forall|k: usize, x: int|
            #![trigger rekeyed(g, c, i).has_node(k, x)]
            #![trigger g.has_node(k, x)]
            rekeyed(g, c, i).has_node(k, x) == g.has_node(k, x),
        forall|k: usize, x: int|
            #![trigger rekeyed(g, c, i).node_at(k, x)]
            #![trigger g.node_at(k, x)]
            g.has_node(k, x) ==> rekeyed(g, c, i).node_at(k, x) == (if k == c && x == i {
                g.canon(g.node_at(c, i))
            } else {
                g.node_at(k, x)
            }),
        forall|k: usize, l: int|
            #![trigger rekeyed(g, c, i).has_parent(k, l)]
            #![trigger g.has_parent(k, l)]
            rekeyed(g, c, i).has_parent(k, l) == g.has_parent(k, l),
        forall|k: usize, l: int|
            #![trigger rekeyed(g, c, i).parent_at(k, l)]
            #![trigger g.parent_at(k, l)]
            g.has_parent(k, l) ==> rekeyed(g, c, i).parent_at(k, l) == g.parent_at(k, l),
{
}

/// Replacing a member by its canonical form keeps the invariant.
pub proof fn lemma_rekey(g: Graph, marks: Seq<usize>, c: usize, i: int)
    requires
        g.inv(marks),
        g.has_node(c, i),
    ensures
        rekeyed(g, c, i).inv(marks),
{
    let g2 = rekeyed(g, c, i);
    let t = g.node_at(c, i);
    let tc = g.canon(t);
    lemma_rekeyed_shape(g, c, i);
    lemma_canon(g, t);
    assert(g.is_root(c));
    assert(g.settled(marks, t));
    // a changed node has an argument in a class that waits for repair
    if tc != t {
        assert(!g.canonical(t));
        let j = choose|j: int| 0 <= j < t.args.len() && !g.is_root(#[trigger] t.args[j]);
        assert(g.arg_settled(marks, t.args[j]));
        assert(g.touches(marks, t));
        assert(g.find(tc.args[j]) == g.find(t.args[j]));
        assert(g.touches(marks, tc));
    }
    assert(g2.ids_ok(marks)) by {
        assert forall|k: usize, x: int| #[trigger] g2.has_node(k, x) implies g2.node_ok(
            g2.node_at(k, x),
        ) by {
            assert(g.has_node(k, x));
        }
        assert forall|k: usize, l: int| #[trigger] g2.has_parent(k, l) implies g2.node_ok(
            g2.parent_at(k, l).0,
        ) && g2.parent_at(k, l).1 < g2.roots.len() by {
            assert(g.has_parent(k, l));
        }
    }
    assert(g2.canon_ok(marks)) by {
        assert forall|k: usize, x: int| #[trigger] g2.has_node(k, x) implies g2.settled(
            marks,
            g2.node_at(k, x),
        ) by {
            assert(g.has_node(k, x));
            if k == c && x == i {
                assert forall|j: int| 0 <= j < tc.args.len() implies g2.arg_settled(
                    marks,
                    #[trigger] tc.args[j],
                ) by {
                    assert(g.is_root(tc.args[j]));
                }
            } else {
                let n = g.node_at(k, x);
                assert(g.settled(marks, n));
                assert forall|j: int| 0 <= j < n.args.len() implies g2.arg_settled(
                    marks,
                    #[trigger] n.args[j],
                ) by {
                    assert(g.arg_settled(marks, n.args[j]));
                    if g.pending(marks, g.find(n.args[j])) {
                        let d = choose|d: int|
                            0 <= d < marks.len() && g.find(#[trigger] marks[d]) == g.find(
                                n.args[j],
                            );
                        assert(g2.find(marks[d]) == g2.find(n.args[j]));
                    }
                }
            }
        }
    }
    assert(g2.memo_sound()) by {
        assert forall|n: Node| #[trigger] g2.memo.contains_key(n) implies g2.in_class(
            g2.find(g2.memo[n]),
            n,
        ) by {
            if n != tc {
                let k0 = g.find(g.memo[n]);
                assert(g.in_class(k0, n));
                let x = choose|x: int| #[trigger] g.has_node(k0, x) && g.node_at(k0, x) == n;
                assert(g2.has_node(k0, x));
                if k0 == c && x == i {
                    assert(n == t);
                    assert(tc == t);
                }
                assert(g2.node_at(k0, x) == n);
            } else {
                assert(n == tc);
                assert(g2.memo[n] == c);
                assert(g2.has_node(c, i));
                assert(g2.node_at(c, i) == n);
            }
        }
    }
    assert(g2.memo_complete(marks)) by {
        assert forall|k: usize, x: int| #[trigger] g2.has_node(k, x) implies g2.touches(
            marks,
            g2.node_at(k, x),
        ) || g2.keyed(g2.node_at(k, x), k) by {
            assert(g.has_node(k, x));
            let n = g2.node_at(k, x);
            if k == c {
                if n != tc {
                    // another member of the class: its entry is as it was
                    if g.touches(marks, n) {
                        lemma_touches_frame(g, g2, marks, n);
                    } else {
                        assert(g.keyed(n, k));
                        assert(n != t || tc == t);
                    }
                }
            } else {
                if g.touches(marks, n) {
                    lemma_touches_frame(g, g2, marks, n);
                } else {
                    assert(g.keyed(n, k));
                    assert(n != t || tc == t);
                    if n == tc {
                        // the entry of a member of another class has been taken:
                        // the member has an argument in a class that waits
                        assert(tc == t);
                        assert(g.touches(marks, t) || g.keyed(t, c));
                    }
                }
            }
        }
    }
    assert(g2.parents_ok()) by {
        assert forall|k: usize, x: int| #[trigger] g2.has_node(k, x) implies g2.all_listed(
            g2.node_at(k, x),
            k,
        ) by {
            assert(g.has_node(k, x));
            let n0 = g.node_at(k, x);
            let n = g2.node_at(k, x);
            assert(g.all_listed(n0, k));
            assert(g.congruent(n0, n)) by {
                lemma_congruent(g, n0, n0, n0);
            }
            assert forall|j: int| 0 <= j < n.args.len() implies g2.listed(
                g2.find(#[trigger] n.args[j]),
                n,
                k,
            ) by {
                assert(g.find(n0.args[j]) == g.find(n.args[j]));
                let cc = g.find(n0.args[j]);
                assert(g.listed(cc, n0, k));
                let l = choose|l: int| #[trigger]
                    g.has_parent(cc, l) && g.find(g.parent_at(cc, l).1) == k && g.congruent(
                        g.parent_at(cc, l).0,
                        n0,
                    );
                lemma_congruent(g, g.parent_at(cc, l).0, n0, n);
                assert(g2.has_parent(cc, l));
                lemma_congruent_frame(g, g2, g.parent_at(cc, l).0, n);
            }
        }
    }
}

/// Touching depends on the representatives alone.
pub proof fn lemma_touches_frame(g: Graph, g2: Graph, marks: Seq<usize>, n: Node)
    requires
        g.roots == g2.roots,
        g.touches(marks, n),
    ensures
        g2.touches(marks, n),
{
    let j = choose|j: int| 0 <= j < n.args.len() && g.pending(marks, g.find(#[trigger] n.args[j]));
    let d = choose|d: int|
        0 <= d < marks.len() && g.find(#[trigger] marks[d]) == g.find(n.args[j]);
    assert(g2.find(marks[d]) == g2.find(n.args[j]));
    assert(g2.pending(marks, g2.find(n.args[j])));
}

/// Congruence depends on the representatives alone.
pub proof fn lemma_congruent_frame(g: Graph, g2: Graph, a: Node, b: Node)
    requires
        g.roots == g2.roots,
        g.congruent(a, b),
    ensures
        g2.congruent(a, b),
{
    assert forall|j: int| 0 <= j < a.args.len() implies g2.find(#[trigger] a.args[j]) == g2.find(
        b.args[j],
    ) by {
        assert(g.find(a.args[j]) == g.find(b.args[j]));
    }
}

/// The graph without the member of class `c` at place `i`.
pub open spec fn dropped(g: Graph, c: usize, i: int) -> Graph {
    Graph {
        roots: g.roots,
        memo: g.memo,
        classes: g.classes.insert(
            c,
            Class { nodes: g.classes[c].nodes.remove(i), parents: g.classes[c].parents },
        ),
    }
}

/// Removing a member that occurs a second time keeps the invariant.
pub proof fn lemma_drop(g: Graph, marks: Seq<usize>, c: usize, i: int, i0: int)
    requires
        g.inv(marks),
        g.has_node(c, i),
        g.has_node(c, i0),
        i0 != i,
        g.node_at(c, i0) == g.node_at(c, i),
    ensures
        dropped(g, c, i).inv(marks),
{
    let g2 = dropped(g, c, i);
    // every node of the new graph is a node of the old one
    assert forall|k: usize, x: int| #[trigger] g2.has_node(k, x) implies g.has_node(
        k,
        if k == c && x >= i {
            x + 1
        } else {
            x
        },
    ) && g2.node_at(k, x) == g.node_at(
        k,
        if k == c && x >= i {
            x + 1
        } else {
            x
        },
    ) by {}
    // every node of the old graph is still a member
    assert forall|k: usize, x: int| #[trigger] g.has_node(k, x) implies g2.in_class(
        k,
        g.node_at(k, x),
    ) by {
        if k == c {
            let y = if x == i {
                i0
            } else {
                x
            };
            let z = if y > i {
                y - 1
            } else {
                y
            };
            assert(g2.has_node(c, z));
            assert(g2.node_at(c, z) == g.node_at(k, x));
        } else {
            assert(g2.has_node(k, x));
        }
    }
    assert forall|k: usize, l: int| #[trigger] g2.has_parent(k, l) implies g.has_parent(k, l)
        && g2.parent_at(k, l) == g.parent_at(k, l) by {}
    assert forall|k: usize, l: int| #[trigger] g.has_parent(k, l) implies g2.has_parent(k, l) by {}
    assert(g2.ids_ok(marks)) by {
        assert forall|k: usize, x: int| #[trigger] g2.has_node(k, x) implies g2.node_ok(
            g2.node_at(k, x),
        ) by {
            let y = if k == c && x >= i {
                x + 1
            } else {
                x
            };
            assert(g.has_node(k, y));
        }
        assert forall|k: usize, l: int| #[trigger] g2.has_parent(k, l) implies g2.node_ok(
            g2.parent_at(k, l).0,
        ) && g2.parent_at(k, l).1 < g2.roots.len() by {
            assert(g.has_parent(k, l));
        }
    }
    assert forall|k: usize, x: int| #[trigger] g2.has_node(k, x) implies g2.settled(
        marks,
        g2.node_at(k, x),
    ) && (g2.touches(marks, g2.node_at(k, x)) || g2.keyed(g2.node_at(k, x), k))
        && g2.all_listed(g2.node_at(k, x), k) by {
        let y = if k == c && x >= i {
            x + 1
        } else {
            x
        };
        assert(g.has_node(k, y));
        let n = g.node_at(k, y);
        assert(g.settled(marks, n));
        assert forall|j: int| 0 <= j < n.args.len() implies g2.arg_settled(
            marks,
            #[trigger] n.args[j],
        ) by {
            assert(g.arg_settled(marks, n.args[j]));
            if g.pending(marks, g.find(n.args[j])) {
                lemma_pending_frame(g, g2, marks, g.find(n.args[j]));
            }
        }
        if g.touches(marks, n) {
            lemma_touches_frame(g, g2, marks, n);
        }
        assert(g.all_listed(n, k));
        assert forall|j: int| 0 <= j < n.args.len() implies g2.listed(
            g2.find(#[trigger] n.args[j]),
            n,
            k,
        ) by {
            let cc = g.find(n.args[j]);
            assert(g.listed(cc, n, k));
            let l = choose|l: int| #[trigger]
                g.has_parent(cc, l) && g.find(g.parent_at(cc, l).1) == k && g.congruent(
                    g.parent_at(cc, l).0,
                    n,
                );
            assert(g2.has_parent(cc, l));
            lemma_congruent_frame(g, g2, g.parent_at(cc, l).0, n);
        }
    }
    assert(g2.memo_sound()) by {
        assert forall|n: Node| #[trigger] g2.memo.contains_key(n) implies g2.in_class(
            g2.find(g2.memo[n]),
            n,
        ) by {
            let k0 = g.find(g.memo[n]);
            assert(g.in_class(k0, n));
            let x = choose|x: int| #[trigger] g.has_node(k0, x) && g.node_at(k0, x) == n;
            assert(g2.in_class(k0, g.node_at(k0, x)));
        }
    }
}

/// Waiting for repair depends on the representatives alone.
pub proof fn lemma_pending_frame(g: Graph, g2: Graph, marks: Seq<usize>, r: usize)
    requires
        g.roots == g2.roots,
        g.pending(marks, r),
    ensures
        g2.pending(marks, r),
{
    let d = choose|d: int| 0 <= d < marks.len() && g.find(#[trigger] marks[d]) == r;
    assert(g2.find(marks[d]) == r);
}

/// The graph in which class `f` has been absorbed into class `s`.
pub open spec fn merged(g: Graph, s: usize, f: usize) -> Graph {
    Graph {
        roots: merged_roots(g.roots, s, f),
        memo: g.memo,
        classes: g.classes.remove(f).insert(
            s,
            Class {
                nodes: g.classes[s].nodes + g.classes[f].nodes,
                parents: g.classes[s].parents + g.classes[f].parents,
            },
        ),
    }
}

/// The representative after the merge of `f` into `s`.
pub open spec fn moved(r: usize, s: usize, f: usize) -> usize {
    if r == f {
        s
    } else {
        r
    }
}

/// Absorbing one class into another keeps the invariant, with the survivor
/// waiting for repair.
pub proof fn lemma_merge(g: Graph, marks: Seq<usize>, s: usize, f: usize)
    requires
        g.inv(marks),
        g.is_root(s),
        g.is_root(f),
        s < f,
    ensures
        merged(g, s, f).inv(marks.push(s)),
{
    let g2 = merged(g, s, f);
    let m2 = marks.push(s);
    let ns = g.classes[s].nodes.len() as int;
    let ps = g.classes[s].parents.len() as int;
    assert(g.classes.contains_key(s) && g.classes.contains_key(f));
    assert forall|x: int| 0 <= x < g.roots.len() implies #[trigger] g2.roots[x] == moved(
        g.roots[x],
        s,
        f,
    ) by {}
    assert(roots_ok(g2.roots)) by {
        assert forall|x: int| 0 <= x < g2.roots.len() implies (#[trigger] g2.roots[x]) <= x
            && g2.roots[g2.roots[x] as int] == g2.roots[x] by {
            assert(g.roots[x] <= x);
            let r = g.roots[x];
            assert(g.roots[r as int] == r);
        }
    }
    assert forall|k: usize| #[trigger] g2.classes.contains_key(k) <==> g2.is_root(k) by {
        assert(g.classes.contains_key(k) <==> g.is_root(k));
    }
    // every pending class stays pending
    assert forall|r: usize| #[trigger] g.pending(marks, r) implies g2.pending(m2, moved(r, s, f)) by {
        let d = choose|d: int| 0 <= d < marks.len() && g.find(#[trigger] marks[d]) == r;
        assert(m2[d] == marks[d]);
        assert(g2.find(m2[d]) == moved(r, s, f));
    }
    assert(g2.pending(m2, s)) by {
        assert(m2[marks.len() as int] == s);
        assert(g2.find(m2[marks.len() as int]) == s);
    }
    // where the nodes and parents of the new graph come from
    assert forall|k: usize, x: int| #[trigger] g2.has_node(k, x) implies g.has_node(
        src_class(g, s, f, k, x),
        src_index(g, s, f, k, x),
    ) && g2.node_at(k, x) == g.node_at(src_class(g, s, f, k, x), src_index(g, s, f, k, x))
        && moved(src_class(g, s, f, k, x), s, f) == k by {}
    assert forall|k: usize, x: int| #[trigger] g.has_node(k, x) implies g2.has_node(
        moved(k, s, f),
        if k == f {
            ns + x
        } else {
            x
        },
    ) && g2.node_at(
        moved(k, s, f),
        if k == f {
            ns + x
        } else {
            x
        },
    ) == g.node_at(k, x) by {}
    assert forall|k: usize, l: int| #[trigger] g.has_parent(k, l) implies g2.has_parent(
        moved(k, s, f),
        if k == f {
            ps + l
        } else {
            l
        },
    ) && g2.parent_at(
        moved(k, s, f),
        if k == f {
            ps + l
        } else {
            l
        },
    ) == g.parent_at(k, l) by {}
    assert(g2.ids_ok(m2)) by {
        assert forall|d: int| 0 <= d < m2.len() implies (#[trigger] m2[d]) < g2.roots.len() by {
            if d < marks.len() {
                assert(m2[d] == marks[d]);
            }
        }
        assert forall|n: Node| #[trigger] g2.memo.contains_key(n) implies g2.node_ok(n)
            && g2.memo[n] < g2.roots.len() by {
            assert(g.node_ok(n));
        }
        assert forall|k: usize, x: int| #[trigger] g2.has_node(k, x) implies g2.node_ok(
            g2.node_at(k, x),
        ) by {
            let k0 = src_class(g, s, f, k, x);
            let x0 = src_index(g, s, f, k, x);
            assert(g.has_node(k0, x0));
            assert(g.node_ok(g.node_at(k0, x0)));
        }
        assert forall|k: usize, l: int| #[trigger] g2.has_parent(k, l) implies g2.node_ok(
            g2.parent_at(k, l).0,
        ) && g2.parent_at(k, l).1 < g2.roots.len() by {
            if k == s {
                if l < ps {
                    assert(g.has_parent(s, l));
                    assert(g2.parent_at(k, l) == g.parent_at(s, l));
                    assert(g.node_ok(g.parent_at(s, l).0));
                } else {
                    assert(g.has_parent(f, l - ps));
                    assert(g2.parent_at(k, l) == g.parent_at(f, l - ps));
                    assert(g.node_ok(g.parent_at(f, l - ps).0));
                }
            } else {
                assert(g.has_parent(k, l));
                assert(g.node_ok(g.parent_at(k, l).0));
            }
        }
    }
    assert forall|k: usize, x: int| #[trigger] g2.has_node(k, x) implies g2.settled(
        m2,
        g2.node_at(k, x),
    ) && (g2.touches(m2, g2.node_at(k, x)) || g2.keyed(g2.node_at(k, x), k)) && g2.all_listed(
        g2.node_at(k, x),
        k,
    ) by {
        let k0 = src_class(g, s, f, k, x);
        let x0 = src_index(g, s, f, k, x);
        assert(g.has_node(k0, x0));
        let n = g.node_at(k0, x0);
        assert(g.node_ok(n));
        assert(g.settled(marks, n));
        assert forall|j: int| 0 <= j < n.args.len() implies g2.arg_settled(
            m2,
            #[trigger] n.args[j],
        ) by {
            let a = n.args[j];
            assert(g.arg_settled(marks, a));
            assert(g2.find(a) == moved(g.find(a), s, f));
            if g.is_root(a) {
                if a == f {
                    assert(g2.pending(m2, g2.find(a)));
                } else {
                    assert(g2.is_root(a));
                }
            } else {
                assert(g.pending(marks, g.find(a)));
            }
        }
        if g.touches(marks, n) {
            let j = choose|j: int|
                0 <= j < n.args.len() && g.pending(marks, g.find(#[trigger] n.args[j]));
            assert(g2.find(n.args[j]) == moved(g.find(n.args[j]), s, f));
            assert(g2.pending(m2, g2.find(n.args[j])));
            assert(g2.touches(m2, n));
        } else {
            assert(g.keyed(n, k0));
            assert(g2.find(g.memo[n]) == moved(k0, s, f));
        }
        assert(g.all_listed(n, k0));
        assert forall|j: int| 0 <= j < n.args.len() implies g2.listed(
            g2.find(#[trigger] n.args[j]),
            n,
            k,
        ) by {
            let a = n.args[j];
            let cc = g.find(a);
            assert(g2.find(a) == moved(cc, s, f));
            assert(g.listed(cc, n, k0));
            let l = choose|l: int| #[trigger]
                g.has_parent(cc, l) && g.find(g.parent_at(cc, l).1) == k0 && g.congruent(
                    g.parent_at(cc, l).0,
                    n,
                );
            let l2 = if cc == f {
                ps + l
            } else {
                l
            };
            let e = g.parent_at(cc, l);
            assert(g2.has_parent(moved(cc, s, f), l2));
            assert(g2.parent_at(moved(cc, s, f), l2) == e);
            assert(g2.find(e.1) == moved(g.find(e.1), s, f));
            assert(g.node_ok(e.0));
            lemma_congruent_moved(g, s, f, e.0, n);
        }
    }
    assert(g2.memo_sound()) by {
        assert forall|n: Node| #[trigger] g2.memo.contains_key(n) implies g2.in_class(
            g2.find(g2.memo[n]),
            n,
        ) by {
            let k0 = g.find(g.memo[n]);
            assert(g.in_class(k0, n));
            let x = choose|x: int| #[trigger] g.has_node(k0, x) && g.node_at(k0, x) == n;
            let x2 = if k0 == f {
                ns + x
            } else {
                x
            };
            assert(g2.has_node(moved(k0, s, f), x2));
            assert(g2.find(g.memo[n]) == moved(k0, s, f));
        }
    }
}

/// The class of the old graph that the node of class `k` at place `x` came from.
pub open spec fn src_class(g: Graph, s: usize, f: usize, k: usize, x: int) -> usize {
    if k == s && x >= g.classes[s].nodes.len() {
        f
    } else {
        k
    }
}

/// The place in the old graph that the node of class `k` at place `x` came from.
pub open spec fn src_index(g: Graph, s: usize, f: usize, k: usize, x: int) -> int {
    if k == s && x >= g.classes[s].nodes.len() {
        x - g.classes[s].nodes.len()
    } else {
        x
    }
}

/// Nodes that were congruent before a merge are congruent after it.
pub proof fn lemma_congruent_moved(g: Graph, s: usize, f: usize, a: Node, b: Node)
    requires
        g.congruent(a, b),
        g.node_ok(a),
        g.node_ok(b),
    ensures
        merged(g, s, f).congruent(a, b),
{
    let g2 = merged(g, s, f);
    assert forall|j: int| 0 <= j < a.args.len() implies g2.find(#[trigger] a.args[j]) == g2.find(
        b.args[j],
    ) by {
        assert(g.find(a.args[j]) == g.find(b.args[j]));
        assert(b.args[j] < g.roots.len());
    }
}

/// The number of times `k` occurs in `args`.
pub open spec fn occurrences(args: Seq<usize>, k: usize) -> nat
    decreases args.len(),
{
    if args.len() == 0 {
        0
    } else {
        occurrences(args.drop_last(), k) + if args.last() == k {
            1nat
        } else {
            0nat
        }
    }
}

pub proof fn lemma_occurs(args: Seq<usize>, j: int)
    requires
        0 <= j < args.len(),
    ensures
        occurrences(args, args[j]) >= 1,
    decreases args.len(),
{
    if j < args.len() - 1 {
        lemma_occurs(args.drop_last(), j);
    }
}

/// The graph with a new class for the node `n`, which is listed among the
/// parents of each of its arguments, once for each time the argument occurs.
pub open spec fn added(g: Graph, n: Node) -> Graph {
    let id = g.roots.len() as usize;
    Graph {
        roots: g.roots.push(id),
        memo: g.memo.insert(n, id),
        classes: Map::new(
            |k: usize| g.classes.contains_key(k) || k == id,
            |k: usize|
                if k == id {
                    Class { nodes: seq![n], parents: Seq::empty() }
                } else {
                    Class {
                        nodes: g.classes[k].nodes,
                        parents: g.classes[k].parents + Seq::new(
                            occurrences(n.args, k),
                            |x: int| (n, id),
                        ),
                    }
                },
        ),
    }
}

/// Adding a class for a canonical node that the hash-cons table does not
/// hold keeps the invariant.
pub proof fn lemma_add(g: Graph, marks: Seq<usize>, n: Node)
    requires
        g.inv(marks),
        g.node_ok(n),
        g.canonical(n),
        !g.memo.contains_key(n),
        g.roots.len() < usize::MAX,
    ensures
        added(g, n).inv(marks),
{
    let g2 = added(g, n);
    let id = g.roots.len() as usize;
    assert(!g.classes.contains_key(id)) by {
        assert(!g.is_root(id));
    }
    assert forall|x: int| 0 <= x < g.roots.len() implies #[trigger] g2.roots[x] == g.roots[x] by {}
    assert(g2.roots[id as int] == id);
    assert(roots_ok(g2.roots)) by {
        assert forall|x: int| 0 <= x < g2.roots.len() implies (#[trigger] g2.roots[x]) <= x
            && g2.roots[g2.roots[x] as int] == g2.roots[x] by {
            if x < g.roots.len() {
                assert(g.roots[x] <= x);
            }
        }
    }
    assert forall|k: usize| #[trigger] g2.classes.contains_key(k) <==> g2.is_root(k) by {
        assert(g.classes.contains_key(k) <==> g.is_root(k));
    }
    assert forall|r: usize| #[trigger] g.pending(marks, r) implies g2.pending(marks, r) by {
        let d = choose|d: int| 0 <= d < marks.len() && g.find(#[trigger] marks[d]) == r;
        assert(g2.find(marks[d]) == r);
    }
    assert forall|k: usize, x: int| #[trigger] g.has_node(k, x) implies g2.has_node(k, x)
        && g2.node_at(k, x) == g.node_at(k, x) by {}
    assert forall|k: usize, l: int| #[trigger] g.has_parent(k, l) implies g2.has_parent(k, l)
        && g2.parent_at(k, l) == g.parent_at(k, l) by {}
    assert forall|a: Node, b: Node| g.node_ok(a) && g.node_ok(b) && #[trigger] g.congruent(a, b)
        implies g2.congruent(a, b) by {
        assert forall|j: int| 0 <= j < a.args.len() implies g2.find(#[trigger] a.args[j])
            == g2.find(b.args[j]) by {
            assert(g.find(a.args[j]) == g.find(b.args[j]));
            assert(b.args[j] < g.roots.len());
        }
    }
    assert(g2.ids_ok(marks)) by {
        assert forall|m: Node| #[trigger] g2.memo.contains_key(m) implies g2.node_ok(m)
            && g2.memo[m] < g2.roots.len() by {
            if m != n {
                assert(g.node_ok(m));
            }
        }
        assert forall|k: usize, x: int| #[trigger] g2.has_node(k, x) implies g2.node_ok(
            g2.node_at(k, x),
        ) by {
            if k != id {
                assert(g.has_node(k, x));
                assert(g.node_ok(g.node_at(k, x)));
            }
        }
        assert forall|k: usize, l: int| #[trigger] g2.has_parent(k, l) implies g2.node_ok(
            g2.parent_at(k, l).0,
        ) && g2.parent_at(k, l).1 < g2.roots.len() by {
            if l < g.classes[k].parents.len() {
                assert(g.has_parent(k, l));
                assert(g.node_ok(g.parent_at(k, l).0));
            }
        }
    }
    assert forall|k: usize, x: int| #[trigger] g2.has_node(k, x) implies g2.settled(
        marks,
        g2.node_at(k, x),
    ) && (g2.touches(marks, g2.node_at(k, x)) || g2.keyed(g2.node_at(k, x), k))
        && g2.all_listed(g2.node_at(k, x), k) by {
        if k == id {
            assert(g2.node_at(k, x) == n);
            assert forall|j: int| 0 <= j < n.args.len() implies g2.arg_settled(
                marks,
                #[trigger] n.args[j],
            ) by {
                assert(g.is_root(n.args[j]));
            }
            assert(g2.keyed(n, id));
            assert forall|j: int| 0 <= j < n.args.len() implies g2.listed(
                g2.find(#[trigger] n.args[j]),
                n,
                id,
            ) by {
                let a = n.args[j];
                assert(g.is_root(a));
                assert(g.classes.contains_key(a));
                lemma_occurs(n.args, j);
                let l = g.classes[a].parents.len() as int;
                assert(g2.has_parent(a, l));
                assert(g2.parent_at(a, l) == (n, id));
                lemma_congruent(g2, n, n, n);
            }
        } else {
            assert(g.has_node(k, x));
            let m = g.node_at(k, x);
            assert(g.node_ok(m));
            assert(g.settled(marks, m));
            assert forall|j: int| 0 <= j < m.args.len() implies g2.arg_settled(
                marks,
                #[trigger] m.args[j],
            ) by {
                assert(g.arg_settled(marks, m.args[j]));
            }
            if g.touches(marks, m) {
                let j = choose|j: int|
                    0 <= j < m.args.len() && g.pending(marks, g.find(#[trigger] m.args[j]));
                assert(g2.pending(marks, g2.find(m.args[j])));
            } else {
                assert(g.keyed(m, k));
            }
            assert(g.all_listed(m, k));
            assert forall|j: int| 0 <= j < m.args.len() implies g2.listed(
                g2.find(#[trigger] m.args[j]),
                m,
                k,
            ) by {
                let cc = g.find(m.args[j]);
                assert(g.listed(cc, m, k));
                let l = choose|l: int| #[trigger]
                    g.has_parent(cc, l) && g.find(g.parent_at(cc, l).1) == k && g.congruent(
                        g.parent_at(cc, l).0,
                        m,
                    );
                assert(g2.has_parent(cc, l));
                assert(g.node_ok(g.parent_at(cc, l).0));
                assert(g2.congruent(g.parent_at(cc, l).0, m));
            }
        }
    }
    assert(g2.memo_sound()) by {
        assert forall|m: Node| #[trigger] g2.memo.contains_key(m) implies g2.in_class(
            g2.find(g2.memo[m]),
            m,
        ) by {
            if m == n {
                assert(g2.has_node(id, 0));
                assert(g2.node_at(id, 0) == n);
            } else {
                let k0 = g.find(g.memo[m]);
                assert(g.in_class(k0, m));
                let x = choose|x: int| #[trigger] g.has_node(k0, x) && g.node_at(k0, x) == m;
                assert(g2.has_node(k0, x));
            }
        }
    }
}

/// Whether the list `ps` holds an entry that stands for `e`.
pub open spec fn covers(g: Graph, ps: Seq<(Node, usize)>, e: (Node, usize)) -> bool {
    exists|l: int|
        0 <= l < ps.len() && g.find((#[trigger] ps[l]).1) == g.find(e.1) && g.congruent(ps[l].0, e.0)
}

/// The graph in which class `s` has the parent list `ps`.
pub open spec fn with_parents(g: Graph, s: usize, ps: Seq<(Node, usize)>) -> Graph {
    Graph {
        roots: g.roots,
        memo: g.memo,
        classes: g.classes.insert(s, Class { nodes: g.classes[s].nodes, parents: ps }),
    }
}

/// Replacing a parent list by one that stands for every entry of the old
/// one keeps the invariant.
pub proof fn lemma_set_parents(g: Graph, marks: Seq<usize>, s: usize, ps: Seq<(Node, usize)>)
    requires
        g.inv(marks),
        g.classes.contains_key(s),
        forall|l: int| #[trigger] g.has_parent(s, l) ==> covers(g, ps, g.parent_at(s, l)),
        forall|l: int|
            0 <= l < ps.len() ==> g.node_ok((#[trigger] ps[l]).0) && ps[l].1 < g.roots.len(),
    ensures
        with_parents(g, s, ps).inv(marks),
{
    let g2 = with_parents(g, s, ps);
    assert forall|k: usize, x: int| #[trigger] g2.has_node(k, x) implies g.has_node(k, x)
        && g2.node_at(k, x) == g.node_at(k, x) by {}
    assert forall|k: usize, x: int| #[trigger] g.has_node(k, x) implies g2.has_node(k, x) by {}
    assert(g2.ids_ok(marks)) by {
        assert forall|k: usize, x: int| #[trigger] g2.has_node(k, x) implies g2.node_ok(
            g2.node_at(k, x),
        ) by {
            assert(g.has_node(k, x));
        }
        assert forall|k: usize, l: int| #[trigger] g2.has_parent(k, l) implies g2.node_ok(
            g2.parent_at(k, l).0,
        ) && g2.parent_at(k, l).1 < g2.roots.len() by {
            if k == s {
                assert(g2.parent_at(k, l) == ps[l]);
            } else {
                assert(g.has_parent(k, l));
            }
        }
    }
    assert forall|k: usize, x: int| #[trigger] g2.has_node(k, x) implies g2.settled(
        marks,
        g2.node_at(k, x),
    ) && (g2.touches(marks, g2.node_at(k, x)) || g2.keyed(g2.node_at(k, x), k))
        && g2.all_listed(g2.node_at(k, x), k) by {
        assert(g.has_node(k, x));
        let n = g.node_at(k, x);
        assert(g.settled(marks, n));
        assert forall|j: int| 0 <= j < n.args.len() implies g2.arg_settled(
            marks,
            #[trigger] n.args[j],
        ) by {
            assert(g.arg_settled(marks, n.args[j]));
            if g.pending(marks, g.find(n.args[j])) {
                lemma_pending_frame(g, g2, marks, g.find(n.args[j]));
            }
        }
        if g.touches(marks, n) {
            lemma_touches_frame(g, g2, marks, n);
        }
        assert(g.all_listed(n, k));
        assert forall|j: int| 0 <= j < n.args.len() implies g2.listed(
            g2.find(#[trigger] n.args[j]),
            n,
            k,
        ) by {
            let cc = g.find(n.args[j]);
            assert(g.listed(cc, n, k));
            let l = choose|l: int| #[trigger]
                g.has_parent(cc, l) && g.find(g.parent_at(cc, l).1) == k && g.congruent(
                    g.parent_at(cc, l).0,
                    n,
                );
            let e = g.parent_at(cc, l);
            if cc == s {
                assert(covers(g, ps, e));
                let l2 = choose|l2: int|
                    0 <= l2 < ps.len() && g.find((#[trigger] ps[l2]).1) == g.find(e.1)
                        && g.congruent(ps[l2].0, e.0);
                assert(g2.has_parent(s, l2));
                assert(g2.parent_at(s, l2) == ps[l2]);
                lemma_congruent(g, ps[l2].0, e.0, n);
                lemma_congruent_frame(g, g2, ps[l2].0, n);
            } else {
                assert(g2.has_parent(cc, l));
                lemma_congruent_frame(g, g2, e.0, n);
            }
        }
    }
    assert(g2.memo_sound()) by {
        assert forall|n: Node| #[trigger] g2.memo.contains_key(n) implies g2.in_class(
            g2.find(g2.memo[n]),
            n,
        ) by {
            let k0 = g.find(g.memo[n]);
            assert(g.in_class(k0, n));
            let x = choose|x: int| #[trigger] g.has_node(k0, x) && g.node_at(k0, x) == n;
            assert(g2.has_node(k0, x));
        }
    }
}

/// A class stops waiting for repair once every node around it is resolved.
pub proof fn lemma_unmark(g: Graph, before: Seq<usize>, after: Seq<usize>, s: usize)
    requires
        g.inv(before),
        g.resolved(s),
        forall|d: int| 0 <= d < after.len() ==> (#[trigger] after[d]) < g.roots.len(),
        forall|r: usize| #[trigger] g.pending(before, r) ==> r == s || g.pending(after, r),
    ensures
        g.inv(after),
{
    assert forall|k: usize, i: int| #[trigger] g.has_node(k, i) implies g.settled(
        after,
        g.node_at(k, i),
    ) && (g.touches(after, g.node_at(k, i)) || g.keyed(g.node_at(k, i), k)) by {
        let n = g.node_at(k, i);
        assert(g.settled(before, n));
        assert forall|j: int| 0 <= j < n.args.len() implies g.arg_settled(
            after,
            #[trigger] n.args[j],
        ) by {
            assert(g.arg_settled(before, n.args[j]));
            if !g.is_root(n.args[j]) && !g.pending(after, g.find(n.args[j])) {
                assert(g.find(n.args[j]) == s);
                assert(g.canonical(n));
            }
        }
        if g.touches(before, n) {
            let j = choose|j: int|
                0 <= j < n.args.len() && g.pending(before, g.find(#[trigger] n.args[j]));
            if g.pending(after, g.find(n.args[j])) {
                assert(g.touches(after, n));
            } else {
                assert(g.find(n.args[j]) == s);
                assert(g.keyed(n, k));
            }
        }
    }
}

/// The invariant survives a change of marks under which every class that
/// waited for repair still does.
pub proof fn lemma_remark(g: Graph, before: Seq<usize>, after: Seq<usize>)
    requires
        g.inv(before),
        forall|d: int| 0 <= d < after.len() ==> (#[trigger] after[d]) < g.roots.len(),
        forall|d: int| 0 <= d < before.len() ==> g.pending(after, g.find(#[trigger] before[d])),
    ensures
        g.inv(after),
{
    assert forall|r: usize| #[trigger] g.pending(before, r) implies g.pending(after, r) by {
        let d = choose|d: int| 0 <= d < before.len() && g.find(#[trigger] before[d]) == r;
        assert(g.pending(after, g.find(before[d])));
    }
    lemma_weaken(g, before, after);
}

/// The canonical forms of the first `n` of `nodes`, each once, in the order
/// of their first occurrence.
pub open spec fn fold_nodes(g: Graph, nodes: Seq<Node>, n: nat) -> Seq<Node>
    decreases n,
{
    if n == 0 || n > nodes.len() {
        Seq::empty()
    } else {
        let before = fold_nodes(g, nodes, (n - 1) as nat);
        let tc = g.canon(nodes[n - 1]);
        if before.contains(tc) {
            before
        } else {
            before.push(tc)
        }
    }
}

/// The hash-cons table after the first `n` of `nodes`, members of class
/// `c`, have given way to their canonical forms: a stale key is removed,
/// and the canonical form is sent to `c`, whatever it was sent to before.
pub open spec fn fold_memo(g: Graph, c: usize, nodes: Seq<Node>, n: nat) -> Map<Node, usize>
    decreases n,
{
    if n == 0 || n > nodes.len() {
        g.memo
    } else {
        let before = fold_memo(g, c, nodes, (n - 1) as nat);
        let t = nodes[n - 1];
        let tc = g.canon(t);
        let m1 = if tc == t {
            before
        } else {
            before.remove(t)
        };
        m1.insert(tc, c)
    }
}

/// The graph in which every member of class `c` has given way to its
/// canonical form, in the class and in the hash-cons table.
pub open spec fn recanoned(g: Graph, c: usize) -> Graph {
    Graph {
        roots: g.roots,
        memo: fold_memo(g, c, g.classes[c].nodes, g.classes[c].nodes.len()),
        classes: g.classes.insert(
            c,
            Class {
                nodes: fold_nodes(g, g.classes[c].nodes, g.classes[c].nodes.len()),
                parents: g.classes[c].parents,
            },
        ),
    }
}

impl Graph {
    /// Whether no class but `c` has a member twice.
    pub open spec fn distinct_except(self, c: usize) -> bool {
        forall|k: usize, i: int, j: int|
            #![trigger self.has_node(k, i), self.has_node(k, j)]
            k != c && self.has_node(k, i) && self.has_node(k, j) && self.node_at(k, i)
                == self.node_at(k, j) ==> i == j
    }

    /// Whether no class has a member twice.
    pub open spec fn members_distinct(self) -> bool {
        forall|k: usize, i: int, j: int|
            #![trigger self.has_node(k, i), self.has_node(k, j)]
            self.has_node(k, i) && self.has_node(k, j) && self.node_at(k, i) == self.node_at(k, j)
                ==> i == j
    }
}

/// The canonical forms of a list, each once, are pairwise different.
pub proof fn lemma_fold_distinct(g: Graph, nodes: Seq<Node>, n: nat)
    ensures
        forall|i: int, j: int|
            0 <= i < fold_nodes(g, nodes, n).len() && 0 <= j < fold_nodes(g, nodes, n).len()
                && fold_nodes(g, nodes, n)[i] == fold_nodes(g, nodes, n)[j] ==> i == j,
    decreases n,
{
    if n > 0 && n <= nodes.len() {
        lemma_fold_distinct(g, nodes, (n - 1) as nat);
        let before = fold_nodes(g, nodes, (n - 1) as nat);
        let after = fold_nodes(g, nodes, n);
        let tc = g.canon(nodes[n - 1]);
        assert forall|i: int, j: int|
            0 <= i < after.len() && 0 <= j < after.len() && after[i] == after[j] implies i
            == j by {
            if !before.contains(tc) {
                if i < before.len() && j < before.len() {
                    assert(before[i] == before[j]);
                } else if i < before.len() {
                    assert(before[i] == tc);
                } else if j < before.len() {
                    assert(before[j] == tc);
                }
            }
        }
    }
}

/// Bringing the members of a class into canonical form leaves no class with a member twice.
pub proof fn lemma_recanoned_distinct(g: Graph, c: usize)
    requires
        g.classes.contains_key(c),
        g.distinct_except(c),
    ensures
        recanoned(g, c).members_distinct(),
{
    let g2 = recanoned(g, c);
    let nodes = g.classes[c].nodes;
    lemma_fold_distinct(g, nodes, nodes.len());
    assert forall|k: usize, i: int, j: int|
        #![trigger g2.has_node(k, i), g2.has_node(k, j)]
        g2.has_node(k, i) && g2.has_node(k, j) && g2.node_at(k, i) == g2.node_at(
            k,
            j,
        ) implies i == j by {
        if k != c {
            assert(g.has_node(k, i) && g.has_node(k, j));
        }
    }
}

/// Absorbing one class into another leaves the other classes as they were.
pub proof fn lemma_merged_distinct(g: Graph, s: usize, f: usize)
    requires
        g.members_distinct(),
        g.classes.contains_key(s),
        g.classes.contains_key(f),
        s != f,
    ensures
        merged(g, s, f).distinct_except(s),
{
    let g2 = merged(g, s, f);
    assert forall|k: usize, i: int, j: int|
        #![trigger g2.has_node(k, i), g2.has_node(k, j)]
        k != s && g2.has_node(k, i) && g2.has_node(k, j) && g2.node_at(k, i) == g2.node_at(
            k,
            j,
        ) implies i == j by {
        assert(g.has_node(k, i) && g.has_node(k, j));
    }
}

/// Adding a class leaves no class with a member twice.
pub proof fn lemma_added_distinct(g: Graph, n: Node)
    requires
        g.members_distinct(),
        !g.classes.contains_key(g.roots.len() as usize),
    ensures
        added(g, n).members_distinct(),
{
    let g2 = added(g, n);
    let id = g.roots.len() as usize;
    assert forall|k: usize, i: int, j: int|
        #![trigger g2.has_node(k, i), g2.has_node(k, j)]
        g2.has_node(k, i) && g2.has_node(k, j) && g2.node_at(k, i) == g2.node_at(
            k,
            j,
        ) implies i == j by {
        if k != id {
            assert(g.has_node(k, i) && g.has_node(k, j));
        }
    }
}

/// Replacing a parent list leaves the members as they were.
pub proof fn lemma_with_parents_distinct(g: Graph, s: usize, ps: Seq<(Node, usize)>)
    requires
        g.members_distinct(),
        g.classes.contains_key(s),
    ensures
        with_parents(g, s, ps).members_distinct(),
{
    let g2 = with_parents(g, s, ps);
    assert forall|k: usize, i: int, j: int|
        #![trigger g2.has_node(k, i), g2.has_node(k, j)]
        g2.has_node(k, i) && g2.has_node(k, j) && g2.node_at(k, i) == g2.node_at(
            k,
            j,
        ) implies i == j by {
        assert(g.has_node(k, i) && g.has_node(k, j));
    }
}

} // verus!
