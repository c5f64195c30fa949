use vstd::prelude::*;
use crate::model::{
    added, dropped, lemma_canon, lemma_congruent, merged, moved, rekeyed, with_parents, Graph,
};
use crate::node::Node;

verus! {

impl Graph {
    /// Whether class `k` has a member congruent to `n`.
    #[verifier::opaque]
    pub open spec fn holds(self, k: usize, n: Node) -> bool {
        exists|i: int| #[trigger] self.has_node(k, i) && self.congruent(self.node_at(k, i), n)
    }

    /// Whether the ids `a` and `b` are in one class.
    pub open spec fn same_class(self, a: usize, b: usize) -> bool {
        self.find(a) == self.find(b)
    }
}

/// Whether `after` represents everything that `before` represents: ids that
/// were equivalent still are, and every member node has a congruent member
/// in what its class has become.
pub open spec fn extends(before: Graph, after: Graph) -> bool {
    &&& before.roots.len() <= after.roots.len()
    &&& forall|a: usize, b: usize|
        a < before.roots.len() && b < before.roots.len() && #[trigger] before.same_class(a, b)
            ==> after.same_class(a, b)
    &&& forall|k: usize, i: int| #[trigger]
        before.has_node(k, i) ==> after.holds(after.find(k), before.node_at(k, i))
}

/// Class `k` holds `n` where it has a member congruent to `n` at place `i`.
pub proof fn lemma_holds(g: Graph, k: usize, i: int, n: Node)
    requires
        g.has_node(k, i),
        g.congruent(g.node_at(k, i), n),
    ensures
        g.holds(k, n),
{
    reveal(Graph::holds);
}

/// Congruent nodes stay congruent.
pub proof fn lemma_extends_congruent(g: Graph, g2: Graph, a: Node, b: Node)
    requires
        extends(g, g2),
        g.node_ok(a),
        g.node_ok(b),
        g.congruent(a, b),
    ensures
        g2.congruent(a, b),
{
    assert forall|j: int| 0 <= j < a.args.len() implies g2.find(#[trigger] a.args[j]) == g2.find(
        b.args[j],
    ) by {
        let x = a.args[j];
        let y = b.args[j];
        assert(g.find(x) == g.find(y));
        assert(g.same_class(x, y));
        assert(g2.same_class(x, y));
    }
}

/// Every graph extends itself.
pub proof fn lemma_extends_refl(g: Graph, marks: Seq<usize>)
    requires
        g.ids_ok(marks),
    ensures
        extends(g, g),
{
    assert forall|k: usize, i: int| #[trigger] g.has_node(k, i) implies g.holds(
        g.find(k),
        g.node_at(k, i),
    ) by {
        assert(g.is_root(k));
        lemma_congruent(g, g.node_at(k, i), g.node_at(k, i), g.node_at(k, i));
        lemma_holds(g, k, i, g.node_at(k, i));
    }
}

/// Extension is transitive.
pub proof fn lemma_extends_trans(
    g1: Graph,
    g2: Graph,
    g3: Graph,
    m1: Seq<usize>,
    m2: Seq<usize>,
)
    requires
        g1.ids_ok(m1),
        g2.ids_ok(m2),
        extends(g1, g2),
        extends(g2, g3),
    ensures
        extends(g1, g3),
{
    assert forall|a: usize, b: usize|
        a < g1.roots.len() && b < g1.roots.len() && #[trigger] g1.same_class(a, b) implies g3.same_class(
        a,
        b,
    ) by {
        assert(g2.same_class(a, b));
    }
    assert forall|k: usize, i: int| #[trigger] g1.has_node(k, i) implies g3.holds(
        g3.find(k),
        g1.node_at(k, i),
    ) by {
        reveal(Graph::holds);
        let n = g1.node_at(k, i);
        assert(g1.is_root(k));
        assert(g1.node_ok(n));
        let k2 = g2.find(k);
        assert(g2.roots[k as int] <= k);
        assert(g2.holds(k2, n));
        let i2 = choose|i2: int| #[trigger]
            g2.has_node(k2, i2) && g2.congruent(g2.node_at(k2, i2), n);
        let m = g2.node_at(k2, i2);
        assert(g2.node_ok(m));
        assert(g2.node_ok(n)) by {
            assert forall|j: int| 0 <= j < n.args.len() implies (#[trigger] n.args[j])
                < g2.roots.len() by {}
        }
        let k3 = g3.find(k2);
        assert(g3.holds(k3, m));
        let i3 = choose|i3: int| #[trigger]
            g3.has_node(k3, i3) && g3.congruent(g3.node_at(k3, i3), m);
        lemma_extends_congruent(g2, g3, m, n);
        lemma_congruent(g3, g3.node_at(k3, i3), m, n);
        assert(g2.same_class(k2, k));
        assert(g3.same_class(k2, k));
    }
}

/// Bringing a member into canonical form extends the graph.
pub proof fn lemma_rekey_extends(g: Graph, marks: Seq<usize>, c: usize, i: int)
    requires
        g.ids_ok(marks),
        g.has_node(c, i),
    ensures
        extends(g, rekeyed(g, c, i)),
{
    let g2 = rekeyed(g, c, i);
    lemma_canon(g, g.node_at(c, i));
    assert forall|k: usize, x: int| #[trigger] g.has_node(k, x) implies g2.holds(
        g2.find(k),
        g.node_at(k, x),
    ) by {
        assert(g.is_root(k));
        assert(g2.has_node(k, x));
        let n = g.node_at(k, x);
        lemma_congruent(g, n, n, n);
        assert(g2.congruent(g2.node_at(k, x), n)) by {
            let m = g2.node_at(k, x);
            assert(g.congruent(m, n));
            assert forall|j: int| 0 <= j < m.args.len() implies g2.find(#[trigger] m.args[j])
                == g2.find(n.args[j]) by {
                assert(g.find(m.args[j]) == g.find(n.args[j]));
            }
        }
        lemma_holds(g2, k, x, n);
    }
}

/// Removing a member that occurs a second time extends the graph.
pub proof fn lemma_drop_extends(g: Graph, marks: Seq<usize>, c: usize, i: int, i0: int)
    requires
        g.ids_ok(marks),
        g.has_node(c, i),
        g.has_node(c, i0),
        i0 != i,
        g.node_at(c, i0) == g.node_at(c, i),
    ensures
        extends(g, dropped(g, c, i)),
{
    let g2 = dropped(g, c, i);
    assert forall|k: usize, x: int| #[trigger] g.has_node(k, x) implies g2.holds(
        g2.find(k),
        g.node_at(k, x),
    ) by {
        assert(g.is_root(k));
        let n = g.node_at(k, x);
        let y = if k == c && x == i {
            i0
        } else {
            x
        };
        let z = if k == c && y > i {
            y - 1
        } else {
            y
        };
        assert(g2.has_node(k, z));
        assert(g2.node_at(k, z) == n);
        lemma_congruent(g2, n, n, n);
        lemma_holds(g2, k, z, n);
    }
}

/// Absorbing one class into another extends the graph.
pub proof fn lemma_merge_extends(g: Graph, marks: Seq<usize>, s: usize, f: usize)
    requires
        g.ids_ok(marks),
        g.is_root(s),
        g.is_root(f),
        s < f,
    ensures
        extends(g, merged(g, s, f)),
{
    let g2 = merged(g, s, f);
    let ns = g.classes[s].nodes.len() as int;
    assert(g.classes.contains_key(s) && g.classes.contains_key(f));
    assert forall|x: int| 0 <= x < g.roots.len() implies #[trigger] g2.roots[x] == moved(
        g.roots[x],
        s,
        f,
    ) by {}
    assert forall|k: usize, x: int| #[trigger] g.has_node(k, x) implies g2.holds(
        g2.find(k),
        g.node_at(k, x),
    ) by {
        assert(g.is_root(k));
        let n = g.node_at(k, x);
        let x2 = if k == f {
            ns + x
        } else {
            x
        };
        assert(g2.has_node(moved(k, s, f), x2));
        assert(g2.node_at(moved(k, s, f), x2) == n);
        lemma_congruent(g2, n, n, n);
        lemma_holds(g2, moved(k, s, f), x2, n);
    }
}

/// Adding a class extends the graph.
pub proof fn lemma_add_extends(g: Graph, marks: Seq<usize>, n: Node)
    requires
        g.ids_ok(marks),
        g.roots.len() < usize::MAX,
    ensures
        extends(g, added(g, n)),
{
    let g2 = added(g, n);
    assert forall|x: int| 0 <= x < g.roots.len() implies #[trigger] g2.roots[x] == g.roots[x] by {}
    assert forall|k: usize, x: int| #[trigger] g.has_node(k, x) implies g2.holds(
        g2.find(k),
        g.node_at(k, x),
    ) by {
        assert(g.is_root(k));
        assert(g2.has_node(k, x));
        let m = g.node_at(k, x);
        assert(g2.node_at(k, x) == m);
        lemma_congruent(g2, m, m, m);
        lemma_holds(g2, k, x, m);
    }
}

/// Replacing a parent list extends the graph.
pub proof fn lemma_set_parents_extends(
    g: Graph,
    marks: Seq<usize>,
    s: usize,
    ps: Seq<(Node, usize)>,
)
    requires
        g.ids_ok(marks),
        g.classes.contains_key(s),
    ensures
        extends(g, with_parents(g, s, ps)),
{
    let g2 = with_parents(g, s, ps);
    assert forall|k: usize, x: int| #[trigger] g.has_node(k, x) implies g2.holds(
        g2.find(k),
        g.node_at(k, x),
    ) by {
        assert(g.is_root(k));
        assert(g2.has_node(k, x));
        let m = g.node_at(k, x);
        assert(g2.node_at(k, x) == m);
        lemma_congruent(g2, m, m, m);
        lemma_holds(g2, k, x, m);
    }
}

} // verus!
