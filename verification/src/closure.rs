use vstd::prelude::*;
use crate::growth::{
    extends, lemma_add_extends, lemma_drop_extends, lemma_extends_congruent, lemma_holds,
    lemma_merge_extends, lemma_rekey_extends, lemma_set_parents_extends,
};
use crate::model::{
    added, dropped, lemma_canon, lemma_congruent, merged, moved, rekeyed, with_parents, Graph,
};
use crate::node::Node;

verus! {

/// A relation between ids.
pub type Rel = spec_fn(usize, usize) -> bool;

impl Graph {
    /// Every parent entry names a class that has a member congruent to its node.
    pub open spec fn parents_sound(self) -> bool {
        forall|k: usize, l: int| #[trigger]
            self.has_parent(k, l) ==> self.holds(
                self.find(self.parent_at(k, l).1),
                self.parent_at(k, l).0,
            )
    }
}

/// Whether `r` is an equivalence on the first `len` ids.
#[verifier::opaque]
pub open spec fn equivalence(r: Rel, len: nat) -> bool {
    &&& forall|a: usize| a < len ==> #[trigger] r(a, a)
    &&& forall|a: usize, b: usize| a < len && b < len && #[trigger] r(a, b) ==> r(b, a)
    &&& forall|a: usize, b: usize, c: usize|
        a < len && b < len && c < len && #[trigger] r(a, b) && #[trigger] r(b, c) ==> r(a, c)
}

/// Whether `r` relates every id with its representative in `g`.
#[verifier::opaque]
pub open spec fn includes(g: Graph, r: Rel) -> bool {
    forall|a: usize| a < g.roots.len() ==> r(a, #[trigger] g.find(a))
}

/// Whether `a` and `b` have the same operator and arguments that `r` relates pairwise.
pub open spec fn alike(r: Rel, a: Node, b: Node) -> bool {
    &&& a.head == b.head
    &&& a.args.len() == b.args.len()
    &&& forall|j: int| 0 <= j < a.args.len() ==> r(#[trigger] a.args[j], b.args[j])
}

/// Whether `r` relates the classes of any two member nodes of `g` that are alike.
#[verifier::opaque]
pub open spec fn congruence(g: Graph, r: Rel) -> bool {
    forall|k1: usize, i1: int, k2: usize, i2: int|
        #![trigger g.has_node(k1, i1), g.has_node(k2, i2)]
        g.has_node(k1, i1) && g.has_node(k2, i2) && alike(r, g.node_at(k1, i1), g.node_at(k2, i2))
            ==> r(k1, k2)
}

/// Whether `r` is a congruence of `g`: an equivalence on its ids that
/// contains the equivalence of `g` and relates the classes of member nodes
/// that are alike.
pub open spec fn closed_over(g: Graph, r: Rel) -> bool {
    &&& g.ids_ok(Seq::empty())
    &&& equivalence(r, g.roots.len())
    &&& includes(g, r)
    &&& congruence(g, r)
}

/// Whether the member of `base` at place `i0` of class `k0` stands behind
/// the node `n` of class `k`: the classes are related and the nodes alike.
pub open spec fn backs(base: Graph, r: Rel, k0: usize, i0: int, n: Node, k: usize) -> bool {
    base.has_node(k0, i0) && r(k0, k) && alike(r, base.node_at(k0, i0), n)
}

/// Whether some member of `base` stands behind the node `n` of class `k`.
#[verifier::opaque]
pub open spec fn backed_node(base: Graph, r: Rel, n: Node, k: usize) -> bool {
    exists|k0: usize, i0: int| #[trigger] backs(base, r, k0, i0, n, k)
}

/// Whether `g` holds nothing that `r` does not justify from `base`: its
/// equivalence lies within `r`, and behind every member node and every
/// parent entry stands a member of `base`.
pub open spec fn backed(base: Graph, r: Rel, g: Graph) -> bool {
    &&& g.roots.len() == base.roots.len()
    &&& includes(g, r)
    &&& forall|k: usize, i: int| #[trigger]
        g.has_node(k, i) ==> backed_node(base, r, g.node_at(k, i), k)
    &&& forall|k: usize, l: int| #[trigger]
        g.has_parent(k, l) ==> backed_node(base, r, g.parent_at(k, l).0, g.parent_at(k, l).1)
}

pub proof fn lemma_refl(r: Rel, len: nat, a: usize)
    requires
        equivalence(r, len),
        a < len,
    ensures
        r(a, a),
{
    reveal(equivalence);
}

pub proof fn lemma_sym(r: Rel, len: nat, a: usize, b: usize)
    requires
        equivalence(r, len),
        a < len,
        b < len,
        r(a, b),
    ensures
        r(b, a),
{
    reveal(equivalence);
}

pub proof fn lemma_trans(r: Rel, len: nat, a: usize, b: usize, c: usize)
    requires
        equivalence(r, len),
        a < len,
        b < len,
        c < len,
        r(a, b),
        r(b, c),
    ensures
        r(a, c),
{
    reveal(equivalence);
}

pub proof fn lemma_includes(g: Graph, r: Rel, a: usize)
    requires
        includes(g, r),
        a < g.roots.len(),
    ensures
        r(a, g.find(a)),
{
    reveal(includes);
}

/// Ids of one class are related.
pub proof fn lemma_same_class_related(g: Graph, r: Rel, a: usize, b: usize)
    requires
        roots_fit(g),
        equivalence(r, g.roots.len()),
        includes(g, r),
        a < g.roots.len(),
        b < g.roots.len(),
        g.find(a) == g.find(b),
    ensures
        r(a, b),
{
    lemma_includes(g, r, a);
    lemma_includes(g, r, b);
    assert(g.roots[a as int] < g.roots.len());
    lemma_sym(r, g.roots.len(), b, g.find(b));
    lemma_trans(r, g.roots.len(), a, g.find(a), b);
}

/// Every representative is an id.
pub open spec fn roots_fit(g: Graph) -> bool {
    forall|a: int| 0 <= a < g.roots.len() ==> (#[trigger] g.roots[a]) < g.roots.len()
}

/// Whether every argument of `n` is below `len`.
pub open spec fn within(n: Node, len: nat) -> bool {
    forall|j: int| 0 <= j < n.args.len() ==> (#[trigger] n.args[j]) < len
}

pub proof fn lemma_alike_refl(r: Rel, len: nat, a: Node)
    requires
        equivalence(r, len),
        within(a, len),
    ensures
        alike(r, a, a),
{
    assert forall|j: int| 0 <= j < a.args.len() implies r(#[trigger] a.args[j], a.args[j]) by {
        lemma_refl(r, len, a.args[j]);
    }
}

pub proof fn lemma_alike_sym(r: Rel, len: nat, a: Node, b: Node)
    requires
        equivalence(r, len),
        within(a, len),
        within(b, len),
        alike(r, a, b),
    ensures
        alike(r, b, a),
{
    assert forall|j: int| 0 <= j < b.args.len() implies r(#[trigger] b.args[j], a.args[j]) by {
        assert(r(a.args[j], b.args[j]));
        lemma_sym(r, len, a.args[j], b.args[j]);
    }
}

pub proof fn lemma_alike_trans(r: Rel, len: nat, a: Node, b: Node, c: Node)
    requires
        equivalence(r, len),
        within(a, len),
        within(b, len),
        within(c, len),
        alike(r, a, b),
        alike(r, b, c),
    ensures
        alike(r, a, c),
{
    assert forall|j: int| 0 <= j < a.args.len() implies r(#[trigger] a.args[j], c.args[j]) by {
        assert(r(a.args[j], b.args[j]));
        assert(r(b.args[j], c.args[j]));
        lemma_trans(r, len, a.args[j], b.args[j], c.args[j]);
    }
}

/// Congruent nodes are alike under every relation that contains the equivalence.
pub proof fn lemma_congruent_alike(g: Graph, r: Rel, a: Node, b: Node)
    requires
        roots_fit(g),
        equivalence(r, g.roots.len()),
        includes(g, r),
        within(a, g.roots.len()),
        within(b, g.roots.len()),
        g.congruent(a, b),
    ensures
        alike(r, a, b),
{
    assert forall|j: int| 0 <= j < a.args.len() implies r(#[trigger] a.args[j], b.args[j]) by {
        assert(g.find(a.args[j]) == g.find(b.args[j]));
        lemma_same_class_related(g, r, a.args[j], b.args[j]);
    }
}

/// What stands behind a node stands behind every node alike in a related class.
pub proof fn lemma_backed_step(base: Graph, r: Rel, n: Node, k: usize, n2: Node, k2: usize)
    requires
        closed_over(base, r),
        backed_node(base, r, n, k),
        k < base.roots.len(),
        k2 < base.roots.len(),
        within(n, base.roots.len()),
        within(n2, base.roots.len()),
        r(k, k2),
        alike(r, n, n2),
    ensures
        backed_node(base, r, n2, k2),
{
    reveal(backed_node);
    let len = base.roots.len();
    let (k0, i0) = choose|k0: usize, i0: int| #[trigger] backs(base, r, k0, i0, n, k);
    let m = base.node_at(k0, i0);
    assert(base.is_root(k0));
    assert(base.node_ok(m));
    lemma_trans(r, len, k0, k, k2);
    lemma_alike_trans(r, len, m, n, n2);
    assert(backs(base, r, k0, i0, n2, k2));
}

/// Two nodes with something behind them that are alike lie in related classes.
pub proof fn lemma_backed_alike(base: Graph, r: Rel, n1: Node, k1: usize, n2: Node, k2: usize)
    requires
        closed_over(base, r),
        backed_node(base, r, n1, k1),
        backed_node(base, r, n2, k2),
        k1 < base.roots.len(),
        k2 < base.roots.len(),
        within(n1, base.roots.len()),
        within(n2, base.roots.len()),
        alike(r, n1, n2),
    ensures
        r(k1, k2),
{
    reveal(backed_node);
    reveal(congruence);
    let len = base.roots.len();
    let (a, x) = choose|k0: usize, i0: int| #[trigger] backs(base, r, k0, i0, n1, k1);
    let (b, y) = choose|k0: usize, i0: int| #[trigger] backs(base, r, k0, i0, n2, k2);
    let m1 = base.node_at(a, x);
    let m2 = base.node_at(b, y);
    assert(base.is_root(a) && base.is_root(b));
    assert(base.node_ok(m1) && base.node_ok(m2));
    lemma_alike_trans(r, len, m1, n1, n2);
    lemma_alike_sym(r, len, m2, n2);
    lemma_alike_trans(r, len, m1, n2, m2);
    assert(r(a, b));
    lemma_sym(r, len, a, k1);
    lemma_trans(r, len, k1, a, b);
    lemma_trans(r, len, k1, b, k2);
}

/// A well-formed graph is backed by itself under each of its congruences.
pub proof fn lemma_self_backed(g: Graph, marks: Seq<usize>, r: Rel)
    requires
        g.inv(marks),
        g.parents_sound(),
        closed_over(g, r),
    ensures
        backed(g, r, g),
{
    reveal(backed_node);
    reveal(Graph::holds);
    let len = g.roots.len();
    assert forall|k: usize, i: int| #[trigger] g.has_node(k, i) implies backed_node(
        g,
        r,
        g.node_at(k, i),
        k,
    ) by {
        assert(g.is_root(k));
        assert(g.node_ok(g.node_at(k, i)));
        lemma_refl(r, len, k);
        lemma_alike_refl(r, len, g.node_at(k, i));
        assert(backs(g, r, k, i, g.node_at(k, i), k));
    }
    assert forall|k: usize, l: int| #[trigger] g.has_parent(k, l) implies backed_node(
        g,
        r,
        g.parent_at(k, l).0,
        g.parent_at(k, l).1,
    ) by {
        let e = g.parent_at(k, l);
        let c = g.find(e.1);
        assert(g.node_ok(e.0));
        assert(g.roots[e.1 as int] <= e.1);
        assert(g.holds(c, e.0));
        let x = choose|x: int| #[trigger] g.has_node(c, x) && g.congruent(g.node_at(c, x), e.0);
        assert(g.node_ok(g.node_at(c, x)));
        lemma_congruent_alike(g, r, g.node_at(c, x), e.0);
        lemma_includes(g, r, e.1);
        lemma_sym(r, len, e.1, c);
        assert(backs(g, r, c, x, e.0, e.1));
    }
}

/// Within a backed graph, ids of one class are related.
pub proof fn lemma_least(base: Graph, r: Rel, g: Graph, marks: Seq<usize>, a: usize, b: usize)
    requires
        closed_over(base, r),
        backed(base, r, g),
        g.ids_ok(marks),
        a < g.roots.len(),
        b < g.roots.len(),
        g.same_class(a, b),
    ensures
        r(a, b),
{
    assert(roots_fit(g)) by {
        assert forall|x: int| 0 <= x < g.roots.len() implies (#[trigger] g.roots[x])
            < g.roots.len() by {
            assert(g.roots[x] <= x);
        }
    }
    lemma_same_class_related(g, r, a, b);
}

/// Bringing a member into canonical form keeps the graph backed.
pub proof fn lemma_rekey_backed(base: Graph, r: Rel, g: Graph, marks: Seq<usize>, c: usize, i: int)
    requires
        closed_over(base, r),
        backed(base, r, g),
        g.inv(marks),
        g.has_node(c, i),
    ensures
        backed(base, r, rekeyed(g, c, i)),
{
    let g2 = rekeyed(g, c, i);
    let len = base.roots.len();
    let t = g.node_at(c, i);
    let tc = g.canon(t);
    assert(includes(g2, r)) by {
        reveal(includes);
        assert forall|a: usize| a < g2.roots.len() implies r(a, #[trigger] g2.find(a)) by {
            assert(g2.find(a) == g.find(a));
        }
    }
    lemma_canon(g, t);
    assert(g.is_root(c));
    assert forall|k: usize, x: int| #[trigger] g2.has_node(k, x) implies backed_node(
        base,
        r,
        g2.node_at(k, x),
        k,
    ) by {
        assert(g.has_node(k, x));
        if k == c && x == i {
            assert(roots_fit(g)) by {
                assert forall|y: int| 0 <= y < g.roots.len() implies (#[trigger] g.roots[y])
                    < g.roots.len() by {
                    assert(g.roots[y] <= y);
                }
            }
            lemma_congruent_alike(g, r, t, tc);
            lemma_refl(r, len, c);
            lemma_backed_step(base, r, t, c, tc, c);
        }
    }
    assert forall|k: usize, l: int| #[trigger] g2.has_parent(k, l) implies backed_node(
        base,
        r,
        g2.parent_at(k, l).0,
        g2.parent_at(k, l).1,
    ) by {
        assert(g.has_parent(k, l));
    }
}

/// Removing a member keeps the graph backed.
pub proof fn lemma_drop_backed(base: Graph, r: Rel, g: Graph, c: usize, i: int)
    requires
        backed(base, r, g),
        g.has_node(c, i),
    ensures
        backed(base, r, dropped(g, c, i)),
{
    let g2 = dropped(g, c, i);
    assert(includes(g2, r)) by {
        reveal(includes);
        assert forall|a: usize| a < g2.roots.len() implies r(a, #[trigger] g2.find(a)) by {
            assert(g2.find(a) == g.find(a));
        }
    }
    assert forall|k: usize, x: int| #[trigger] g2.has_node(k, x) implies backed_node(
        base,
        r,
        g2.node_at(k, x),
        k,
    ) by {
        let y = if k == c && x >= i {
            x + 1
        } else {
            x
        };
        assert(g.has_node(k, y));
        assert(g2.node_at(k, x) == g.node_at(k, y));
    }
    assert forall|k: usize, l: int| #[trigger] g2.has_parent(k, l) implies backed_node(
        base,
        r,
        g2.parent_at(k, l).0,
        g2.parent_at(k, l).1,
    ) by {
        assert(g.has_parent(k, l));
    }
}

/// Absorbing a class into a related one keeps the graph backed.
pub proof fn lemma_merge_backed(
    base: Graph,
    r: Rel,
    g: Graph,
    marks: Seq<usize>,
    s: usize,
    f: usize,
)
    requires
        closed_over(base, r),
        backed(base, r, g),
        g.inv(marks),
        g.is_root(s),
        g.is_root(f),
        s < f,
        r(s, f),
    ensures
        backed(base, r, merged(g, s, f)),
{
    let g2 = merged(g, s, f);
    let len = base.roots.len();
    let ns = g.classes[s].nodes.len() as int;
    let ps = g.classes[s].parents.len() as int;
    assert(g.classes.contains_key(s) && g.classes.contains_key(f));
    assert forall|x: int| 0 <= x < g.roots.len() implies #[trigger] g2.roots[x] == moved(
        g.roots[x],
        s,
        f,
    ) by {}
    lemma_sym(r, len, s, f);
    assert(includes(g2, r)) by {
        reveal(includes);
        assert forall|a: usize| a < g2.roots.len() implies r(a, #[trigger] g2.find(a)) by {
            assert(r(a, g.find(a)));
            assert(g.roots[a as int] <= a);
            if g.find(a) == f {
                lemma_trans(r, len, a, f, s);
            }
        }
    }
    assert forall|k: usize, x: int| #[trigger] g2.has_node(k, x) implies backed_node(
        base,
        r,
        g2.node_at(k, x),
        k,
    ) by {
        let from_f = k == s && x >= ns;
        let k0 = if from_f {
            f
        } else {
            k
        };
        let x0 = if from_f {
            x - ns
        } else {
            x
        };
        assert(g.has_node(k0, x0));
        let n = g.node_at(k0, x0);
        assert(g2.node_at(k, x) == n);
        assert(g.node_ok(n));
        if from_f {
            lemma_alike_refl(r, len, n);
            lemma_backed_step(base, r, n, f, n, s);
        }
    }
    assert forall|k: usize, l: int| #[trigger] g2.has_parent(k, l) implies backed_node(
        base,
        r,
        g2.parent_at(k, l).0,
        g2.parent_at(k, l).1,
    ) by {
        if k == s && l >= ps {
            assert(g.has_parent(f, l - ps));
            assert(g2.parent_at(k, l) == g.parent_at(f, l - ps));
        } else {
            assert(g.has_parent(k, l));
            assert(g2.parent_at(k, l) == g.parent_at(k, l));
        }
    }
}

/// Replacing a parent list by backed entries keeps the graph backed.
pub proof fn lemma_set_parents_backed(
    base: Graph,
    r: Rel,
    g: Graph,
    s: usize,
    ps: Seq<(Node, usize)>,
)
    requires
        backed(base, r, g),
        g.classes.contains_key(s),
        forall|l: int|
            0 <= l < ps.len() ==> backed_node(base, r, (#[trigger] ps[l]).0, ps[l].1),
    ensures
        backed(base, r, with_parents(g, s, ps)),
{
    let g2 = with_parents(g, s, ps);
    assert(includes(g2, r)) by {
        reveal(includes);
        assert forall|a: usize| a < g2.roots.len() implies r(a, #[trigger] g2.find(a)) by {
            assert(g2.find(a) == g.find(a));
        }
    }
    assert forall|k: usize, x: int| #[trigger] g2.has_node(k, x) implies backed_node(
        base,
        r,
        g2.node_at(k, x),
        k,
    ) by {
        assert(g.has_node(k, x));
    }
    assert forall|k: usize, l: int| #[trigger] g2.has_parent(k, l) implies backed_node(
        base,
        r,
        g2.parent_at(k, l).0,
        g2.parent_at(k, l).1,
    ) by {
        if k == s {
            assert(g2.parent_at(k, l) == ps[l]);
        } else {
            assert(g.has_parent(k, l));
        }
    }
}

/// A class whose member has a canonical form that the hash-cons table
/// sends elsewhere is related to that class.
pub proof fn lemma_hit_memo(base: Graph, r: Rel, g: Graph, marks: Seq<usize>, c: usize, i: int)
    requires
        closed_over(base, r),
        backed(base, r, g),
        g.inv(marks),
        g.has_node(c, i),
        g.memo.contains_key(g.canon(g.node_at(c, i))),
    ensures
        r(c, g.memo[g.canon(g.node_at(c, i))]),
{
    let len = base.roots.len();
    let t = g.node_at(c, i);
    let tc = g.canon(t);
    let o = g.memo[tc];
    let k2 = g.find(o);
    lemma_canon(g, t);
    assert(g.is_root(c));
    assert(g.roots[o as int] <= o);
    assert(roots_fit(g)) by {
        assert forall|y: int| 0 <= y < g.roots.len() implies (#[trigger] g.roots[y])
            < g.roots.len() by {
            assert(g.roots[y] <= y);
        }
    }
    assert(g.in_class(k2, tc));
    let x = choose|x: int| #[trigger] g.has_node(k2, x) && g.node_at(k2, x) == tc;
    assert(backed_node(base, r, g.node_at(k2, x), k2));
    lemma_congruent_alike(g, r, t, tc);
    lemma_backed_alike(base, r, t, c, tc, k2);
    lemma_includes(g, r, o);
    lemma_sym(r, len, o, k2);
    lemma_trans(r, len, c, k2, o);
}

/// A parent entry in canonical form, with the representative of its class,
/// is backed where the entry is.
pub proof fn lemma_entry_backed(
    base: Graph,
    r: Rel,
    g: Graph,
    marks: Seq<usize>,
    p: Node,
    id: usize,
)
    requires
        closed_over(base, r),
        g.ids_ok(marks),
        g.roots.len() == base.roots.len(),
        includes(g, r),
        backed_node(base, r, p, id),
        g.node_ok(p),
        id < g.roots.len(),
    ensures
        backed_node(base, r, g.canon(p), g.find(id)),
{
    assert(roots_fit(g)) by {
        assert forall|y: int| 0 <= y < g.roots.len() implies (#[trigger] g.roots[y])
            < g.roots.len() by {
            assert(g.roots[y] <= y);
        }
    }
    lemma_canon(g, p);
    lemma_congruent_alike(g, r, p, g.canon(p));
    lemma_includes(g, r, id);
    assert(g.roots[id as int] <= id);
    lemma_backed_step(base, r, p, id, g.canon(p), g.find(id));
}

/// A parent entry stays sound in every graph that extends the first.
pub proof fn lemma_entry_sound(g: Graph, marks: Seq<usize>, g2: Graph, p: Node, id: usize)
    requires
        g.ids_ok(marks),
        extends(g, g2),
        g.node_ok(p),
        id < g.roots.len(),
        g.holds(g.find(id), p),
    ensures
        g2.holds(g2.find(id), p),
{
    reveal(Graph::holds);
    let c = g.find(id);
    assert(g.roots[id as int] <= id);
    let x = choose|x: int| #[trigger] g.has_node(c, x) && g.congruent(g.node_at(c, x), p);
    let m = g.node_at(c, x);
    assert(g.node_ok(m));
    let c2 = g2.find(c);
    assert(g2.holds(c2, m));
    let y = choose|y: int| #[trigger] g2.has_node(c2, y) && g2.congruent(g2.node_at(c2, y), m);
    lemma_extends_congruent(g, g2, m, p);
    crate::model::lemma_congruent(g2, g2.node_at(c2, y), m, p);
    assert(g.same_class(c, id));
    assert(g2.same_class(c, id));
    lemma_holds(g2, c2, y, p);
}

/// Bringing a member into canonical form keeps the parent entries sound.
pub proof fn lemma_rekey_sound(g: Graph, marks: Seq<usize>, c: usize, i: int)
    requires
        g.inv(marks),
        g.parents_sound(),
        g.has_node(c, i),
    ensures
        rekeyed(g, c, i).parents_sound(),
{
    let g2 = rekeyed(g, c, i);
    lemma_rekey_extends(g, marks, c, i);
    assert forall|k: usize, l: int| #[trigger] g2.has_parent(k, l) implies g2.holds(
        g2.find(g2.parent_at(k, l).1),
        g2.parent_at(k, l).0,
    ) by {
        assert(g.has_parent(k, l));
        let e = g.parent_at(k, l);
        assert(g2.parent_at(k, l) == e);
        lemma_entry_sound(g, marks, g2, e.0, e.1);
    }
}

/// Removing a member that occurs a second time keeps the parent entries sound.
pub proof fn lemma_drop_sound(g: Graph, marks: Seq<usize>, c: usize, i: int, i0: int)
    requires
        g.inv(marks),
        g.parents_sound(),
        g.has_node(c, i),
        g.has_node(c, i0),
        i0 != i,
        g.node_at(c, i0) == g.node_at(c, i),
    ensures
        dropped(g, c, i).parents_sound(),
{
    let g2 = dropped(g, c, i);
    lemma_drop_extends(g, marks, c, i, i0);
    assert forall|k: usize, l: int| #[trigger] g2.has_parent(k, l) implies g2.holds(
        g2.find(g2.parent_at(k, l).1),
        g2.parent_at(k, l).0,
    ) by {
        assert(g.has_parent(k, l));
        let e = g.parent_at(k, l);
        assert(g2.parent_at(k, l) == e);
        lemma_entry_sound(g, marks, g2, e.0, e.1);
    }
}

/// Absorbing one class into another keeps the parent entries sound.
pub proof fn lemma_merge_sound(g: Graph, marks: Seq<usize>, s: usize, f: usize)
    requires
        g.inv(marks),
        g.parents_sound(),
        g.is_root(s),
        g.is_root(f),
        s < f,
    ensures
        merged(g, s, f).parents_sound(),
{
    let g2 = merged(g, s, f);
    let ps = g.classes[s].parents.len() as int;
    assert(g.classes.contains_key(s) && g.classes.contains_key(f));
    lemma_merge_extends(g, marks, s, f);
    assert forall|k: usize, l: int| #[trigger] g2.has_parent(k, l) implies g2.holds(
        g2.find(g2.parent_at(k, l).1),
        g2.parent_at(k, l).0,
    ) by {
        if k == s && l >= ps {
            assert(g.has_parent(f, l - ps));
            let e = g.parent_at(f, l - ps);
            assert(g2.parent_at(k, l) == e);
            lemma_entry_sound(g, marks, g2, e.0, e.1);
        } else {
            assert(g.has_parent(k, l));
            let e = g.parent_at(k, l);
            assert(g2.parent_at(k, l) == e);
            lemma_entry_sound(g, marks, g2, e.0, e.1);
        }
    }
}

/// Adding a class keeps the parent entries sound.
pub proof fn lemma_add_sound(g: Graph, marks: Seq<usize>, n: Node)
    requires
        g.inv(marks),
        g.parents_sound(),
        g.node_ok(n),
        g.roots.len() < usize::MAX,
    ensures
        added(g, n).parents_sound(),
{
    let g2 = added(g, n);
    let id = g.roots.len() as usize;
    lemma_add_extends(g, marks, n);
    assert(!g.classes.contains_key(id)) by {
        assert(!g.is_root(id));
    }
    assert forall|k: usize, l: int| #[trigger] g2.has_parent(k, l) implies g2.holds(
        g2.find(g2.parent_at(k, l).1),
        g2.parent_at(k, l).0,
    ) by {
        assert(k != id);
        if l < g.classes[k].parents.len() {
            assert(g.has_parent(k, l));
            let e = g.parent_at(k, l);
            assert(g2.parent_at(k, l) == e);
            lemma_entry_sound(g, marks, g2, e.0, e.1);
        } else {
            assert(g2.parent_at(k, l) == (n, id));
            assert(g2.roots[id as int] == id);
            assert(g2.has_node(id, 0));
            assert(g2.node_at(id, 0) == n);
            lemma_congruent(g2, n, n, n);
            lemma_holds(g2, id, 0, n);
        }
    }
}

/// Replacing a parent list by sound entries keeps the parent entries sound.
pub proof fn lemma_set_parents_sound(g: Graph, marks: Seq<usize>, s: usize, ps: Seq<(Node, usize)>)
    requires
        g.inv(marks),
        g.parents_sound(),
        g.classes.contains_key(s),
        forall|l: int|
            0 <= l < ps.len() ==> g.node_ok((#[trigger] ps[l]).0) && ps[l].1 < g.roots.len()
                && g.holds(g.find(ps[l].1), ps[l].0),
    ensures
        with_parents(g, s, ps).parents_sound(),
{
    let g2 = with_parents(g, s, ps);
    lemma_set_parents_extends(g, marks, s, ps);
    assert forall|k: usize, l: int| #[trigger] g2.has_parent(k, l) implies g2.holds(
        g2.find(g2.parent_at(k, l).1),
        g2.parent_at(k, l).0,
    ) by {
        if k == s {
            let e = ps[l];
            assert(g2.parent_at(k, l) == e);
            lemma_entry_sound(g, marks, g2, e.0, e.1);
        } else {
            assert(g.has_parent(k, l));
            let e = g.parent_at(k, l);
            assert(g2.parent_at(k, l) == e);
            lemma_entry_sound(g, marks, g2, e.0, e.1);
        }
    }
}

/// A sound entry is sound in canonical form, with the representative of its class.
pub proof fn lemma_canon_sound(g: Graph, marks: Seq<usize>, p: Node, id: usize)
    requires
        g.ids_ok(marks),
        g.node_ok(p),
        id < g.roots.len(),
        g.holds(g.find(id), p),
    ensures
        g.holds(g.find(g.find(id)), g.canon(p)),
{
    reveal(Graph::holds);
    let c = g.find(id);
    assert(g.roots[id as int] <= id);
    let x = choose|x: int| #[trigger] g.has_node(c, x) && g.congruent(g.node_at(c, x), p);
    lemma_canon(g, p);
    lemma_congruent(g, g.node_at(c, x), p, g.canon(p));
}

/// Whether `r` relates the two ids of every pair.
pub open spec fn justified(r: Rel, pairs: Seq<(usize, usize)>) -> bool {
    forall|h: int| 0 <= h < pairs.len() ==> r((#[trigger] pairs[h]).0, pairs[h].1)
}

/// Whether something of `base` stands behind every entry.
pub open spec fn entries_backed(base: Graph, r: Rel, es: Seq<(Node, usize)>) -> bool {
    forall|l: int| 0 <= l < es.len() ==> backed_node(base, r, (#[trigger] es[l]).0, es[l].1)
}

/// Whether `after` and the pairs are justified by whatever justifies `before`.
pub open spec fn keeps(before: Graph, after: Graph, pairs: Seq<(usize, usize)>) -> bool {
    forall|base: Graph, r: Rel|
        closed_over(base, r) && #[trigger] backed(base, r, before) ==> backed(base, r, after)
            && justified(r, pairs)
}

/// Whether `after` is justified by whatever justifies `before` and relates `a` with `b`.
pub open spec fn carries(before: Graph, after: Graph, a: usize, b: usize) -> bool {
    forall|base: Graph, r: Rel|
        closed_over(base, r) && #[trigger] backed(base, r, before) && r(a, b) ==> backed(
            base,
            r,
            after,
        )
}

/// Whether the entries and the pairs are justified by whatever justifies `g`.
pub open spec fn finds(g: Graph, es: Seq<(Node, usize)>, pairs: Seq<(usize, usize)>) -> bool {
    forall|base: Graph, r: Rel|
        closed_over(base, r) && #[trigger] backed(base, r, g) ==> entries_backed(base, r, es)
            && justified(r, pairs)
}

/// Whether the equivalence of `after` lies within every congruence of `before`.
pub open spec fn least(before: Graph, after: Graph) -> bool {
    forall|r: Rel| #[trigger]
        closed_over(before, r) ==> forall|a: usize, b: usize|
            a < after.roots.len() && b < after.roots.len() && #[trigger] after.same_class(a, b)
                ==> r(a, b)
}

/// What is kept from a well-formed graph lies within each of its congruences.
pub proof fn lemma_kept_least(g: Graph, marks: Seq<usize>, g2: Graph, marks2: Seq<usize>)
    requires
        g.inv(marks),
        g.parents_sound(),
        g2.ids_ok(marks2),
        keeps(g, g2, Seq::empty()),
    ensures
        least(g, g2),
{
    assert forall|r: Rel| #[trigger] closed_over(g, r) implies forall|a: usize, b: usize|
        a < g2.roots.len() && b < g2.roots.len() && #[trigger] g2.same_class(a, b) ==> r(
            a,
            b,
        ) by {
        lemma_self_backed(g, marks, r);
        assert(backed(g, r, g2));
        assert forall|a: usize, b: usize|
            a < g2.roots.len() && b < g2.roots.len() && #[trigger] g2.same_class(
                a,
                b,
            ) implies r(a, b) by {
            lemma_least(g, r, g2, marks2, a, b);
        }
    }
}

} // verus!
