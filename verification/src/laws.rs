use vstd::prelude::*;
use crate::bindings::{consistent, merged_row, products, Subst};
use crate::closure::{
    alike, backed, backed_node, backs, closed_over, congruence, equivalence, includes, keeps,
    lemma_self_backed, Rel,
};
use crate::growth::extends;
use crate::insert::{ins, ins_args, pushed};
use crate::matcher::{
    all_matches, class_matches, hit_at, is_match, kid_matches, kids_match, lemma_hit,
    lemma_step_sound, node_hit,
};
use crate::model::{lemma_canon, lemma_congruent, Graph};
use crate::node::Node;
use crate::rewrite::{holds_instance, inst, inst_args, kids_hold, lemma_kids_match_instance};
use crate::term::{unquoted, vars_upto, Pattern, Term};

verus! {

/// In a clean e-graph every argument of every member node is a representative.
pub proof fn law_canonicity(g: Graph, k: usize, i: int, j: int)
    requires
        g.clean(),
        g.has_node(k, i),
        0 <= j < g.node_at(k, i).args.len(),
    ensures
        g.node_at(k, i).args[j] == g.find(g.node_at(k, i).args[j]),
        g.canonical(g.node_at(k, i)),
{
    let n = g.node_at(k, i);
    let none = Seq::<usize>::empty();
    assert(g.settled(none, n));
    assert forall|x: int| 0 <= x < n.args.len() implies g.is_root(#[trigger] n.args[x]) by {
        assert(g.arg_settled(none, n.args[x]));
    }
}

/// In a clean e-graph the hash-cons table and the classes agree: a key of
/// the table is a member of the class it is sent to, and a member node is
/// a key that is sent to its class.
pub proof fn law_memo_agreement(g: Graph, n: Node, k: usize, i: int)
    requires
        g.clean(),
    ensures
        g.memo.contains_key(n) ==> g.in_class(g.find(g.memo[n]), n),
        g.has_node(k, i) ==> g.memo.contains_key(g.node_at(k, i)) && g.find(
            g.memo[g.node_at(k, i)],
        ) == k,
{
    if g.has_node(k, i) {
        let m = g.node_at(k, i);
        let none = Seq::<usize>::empty();
        assert(g.touches(none, m) || g.keyed(m, k));
    }
}

/// At all times the classes are keyed by exactly the representatives.
pub proof fn law_class_keys(g: Graph, marks: Seq<usize>, k: usize)
    requires
        g.inv(marks),
    ensures
        g.classes.contains_key(k) <==> g.is_root(k),
{
}

/// In a clean e-graph every member node is listed among the parents of each
/// of its argument classes: by an entry whose node has the member as its
/// canonical form and whose id lies in the member's class.
pub proof fn law_parents(g: Graph, k: usize, i: int, j: int)
    requires
        g.clean(),
        g.has_node(k, i),
        0 <= j < g.node_at(k, i).args.len(),
    ensures
        exists|l: int| #[trigger]
            g.has_parent(g.node_at(k, i).args[j], l) && g.canon(
                g.parent_at(g.node_at(k, i).args[j], l).0,
            ) == g.node_at(k, i) && g.find(g.parent_at(g.node_at(k, i).args[j], l).1) == k,
{
    let n = g.node_at(k, i);
    let x = n.args[j];
    law_canonicity(g, k, i, j);
    assert(g.all_listed(n, k));
    assert(g.listed(g.find(n.args[j]), n, k));
    let l = choose|l: int| #[trigger]
        g.has_parent(x, l) && g.find(g.parent_at(x, l).1) == k && g.congruent(
            g.parent_at(x, l).0,
            n,
        );
    let p = g.parent_at(x, l).0;
    assert(g.node_ok(p));
    lemma_canon(g, p);
    lemma_canon(g, n);
    assert(g.canon(p).args =~= n.args) by {
        assert forall|a: int| 0 <= a < n.args.len() implies g.canon(p).args[a] == n.args[a] by {
            assert(g.find(p.args[a]) == g.find(n.args[a]));
            assert(g.is_root(n.args[a]));
        }
    }
    assert(g.canon(p) == n);
}

/// In a clean e-graph congruent member nodes lie in one class.
pub proof fn law_congruence_closed(g: Graph, k1: usize, i1: int, k2: usize, i2: int)
    requires
        g.clean(),
        g.has_node(k1, i1),
        g.has_node(k2, i2),
        g.congruent(g.node_at(k1, i1), g.node_at(k2, i2)),
    ensures
        k1 == k2,
{
    let n1 = g.node_at(k1, i1);
    let n2 = g.node_at(k2, i2);
    let none = Seq::<usize>::empty();
    assert(g.settled(none, n1) && g.settled(none, n2));
    assert(n1.args =~= n2.args) by {
        assert forall|a: int| 0 <= a < n1.args.len() implies n1.args[a] == n2.args[a] by {
            assert(g.arg_settled(none, n1.args[a]));
            assert(g.arg_settled(none, n2.args[a]));
            assert(g.find(n1.args[a]) == g.find(n2.args[a]));
        }
    }
    assert(n1 == n2);
    assert(g.touches(none, n1) || g.keyed(n1, k1));
    assert(g.touches(none, n2) || g.keyed(n2, k2));
}

/// Congruence propagates: where a clean e-graph extends one in which two
/// member nodes have the same operator, and the arguments of the two are
/// pairwise equivalent in the clean one, their classes have become one.
pub proof fn law_congruence_propagates(
    before: Graph,
    marks: Seq<usize>,
    after: Graph,
    k1: usize,
    i1: int,
    k2: usize,
    i2: int,
)
    requires
        before.inv(marks),
        extends(before, after),
        after.clean(),
        before.has_node(k1, i1),
        before.has_node(k2, i2),
        after.congruent(before.node_at(k1, i1), before.node_at(k2, i2)),
    ensures
        after.find(k1) == after.find(k2),
{
    reveal(Graph::holds);
    let n1 = before.node_at(k1, i1);
    let n2 = before.node_at(k2, i2);
    let c1 = after.find(k1);
    let c2 = after.find(k2);
    assert(after.holds(c1, n1));
    assert(after.holds(c2, n2));
    let x1 = choose|x: int| #[trigger] after.has_node(c1, x) && after.congruent(
        after.node_at(c1, x),
        n1,
    );
    let x2 = choose|x: int| #[trigger] after.has_node(c2, x) && after.congruent(
        after.node_at(c2, x),
        n2,
    );
    let m1 = after.node_at(c1, x1);
    let m2 = after.node_at(c2, x2);
    lemma_congruent(after, m1, n1, n2);
    lemma_congruent(after, m2, n2, n2);
    lemma_congruent(after, m1, n2, m2);
    law_congruence_closed(after, c1, x1, c2, x2);
}

/// Whether class `c` represents the ground term `t`: it has a member node
/// with the operator of `t` whose argument classes represent the arguments.
pub open spec fn represents(g: Graph, t: Term, c: usize) -> bool
    decreases t, 0nat,
{
    exists|i: int| #[trigger]
        g.has_node(g.find(c), i) && g.node_at(g.find(c), i).head == unquoted(t.head@)
            && g.node_at(g.find(c), i).args.len() == t.args@.len() && args_represented(
            g,
            t.args@,
            t.args@.len(),
            g.node_at(g.find(c), i).args,
        )
}

/// Whether the first `n` classes of `args` represent the first `n` terms.
pub open spec fn args_represented(g: Graph, ts: Seq<Term>, n: nat, args: Seq<usize>) -> bool
    decreases ts, n,
{
    if n == 0 || n > ts.len() || n > args.len() {
        n == 0
    } else {
        args_represented(g, ts, (n - 1) as nat, args) && represents(g, ts[n - 1], args[n - 1])
    }
}

/// Nothing is lost: a term that a class represents is represented by what
/// the class has become in every e-graph that extends the first. So no
/// operation that extends the e-graph, a rewrite among them, makes the set
/// of represented terms smaller.
pub proof fn law_represented_stays(g: Graph, marks: Seq<usize>, g2: Graph, t: Term, c: usize)
    requires
        g.inv(marks),
        extends(g, g2),
        c < g.roots.len(),
        represents(g, t, c),
    ensures
        represents(g2, t, c),
    decreases t, 0nat,
{
    reveal(Graph::holds);
    let k = g.find(c);
    assert(g.roots[c as int] <= c);
    let i = choose|i: int| #[trigger]
        g.has_node(k, i) && g.node_at(k, i).head == unquoted(t.head@) && g.node_at(
            k,
            i,
        ).args.len() == t.args@.len() && args_represented(
            g,
            t.args@,
            t.args@.len(),
            g.node_at(k, i).args,
        );
    let n = g.node_at(k, i);
    assert(g.node_ok(n));
    let k2 = g2.find(k);
    assert(g2.holds(k2, n));
    let i2 = choose|i2: int| #[trigger] g2.has_node(k2, i2) && g2.congruent(g2.node_at(k2, i2), n);
    let m = g2.node_at(k2, i2);
    assert(g.same_class(k, c));
    assert(g2.same_class(k, c));
    lemma_args_stay(g, marks, g2, t.args@, t.args@.len(), n.args, m.args);
    assert(g2.has_node(g2.find(c), i2));
}

/// The same for the first `n` arguments, read through equivalent classes.
pub proof fn lemma_args_stay(
    g: Graph,
    marks: Seq<usize>,
    g2: Graph,
    ts: Seq<Term>,
    n: nat,
    args: Seq<usize>,
    args2: Seq<usize>,
)
    requires
        g.inv(marks),
        extends(g, g2),
        forall|j: int| 0 <= j < args.len() ==> (#[trigger] args[j]) < g.roots.len(),
        args.len() == args2.len(),
        forall|j: int| 0 <= j < args.len() ==> g2.find(#[trigger] args2[j]) == g2.find(args[j]),
        args_represented(g, ts, n, args),
    ensures
        args_represented(g2, ts, n, args2),
    decreases ts, n,
{
    if n > 0 {
        lemma_args_stay(g, marks, g2, ts, (n - 1) as nat, args, args2);
        let a = args[n - 1];
        let b = args2[n - 1];
        law_represented_stays(g, marks, g2, ts[n - 1], a);
        assert(g2.find(b) == g2.find(a));
        lemma_same_class_represents(g2, ts[n - 1], a, b);
    }
}

/// Whether a class represents a term depends on the class alone, not on the id.
pub proof fn lemma_same_class_represents(g: Graph, t: Term, a: usize, b: usize)
    requires
        g.find(a) == g.find(b),
        represents(g, t, a),
    ensures
        represents(g, t, b),
{
}

/// A match can be shown: in a clean e-graph the instance of a pattern under
/// a match of it in class `c` is held already, and its class is `c`.
pub proof fn law_match_sound(g: Graph, p: Pattern, s: Subst, c: usize)
    requires
        g.clean(),
        c < g.roots.len(),
        is_match(g, p, s, c),
    ensures
        inst(g, p, s) == (g, g.find(c)),
    decreases p, 0nat,
{
    match p {
        Pattern::PatVar(v) => {},
        Pattern::PatTerm(h, ps) => {
            lemma_hit(g, p, s, c);
            let k = g.find(c);
            assert(g.roots[c as int] <= c);
            let i = hit_at(g, k, h@, ps@, s);
            let n = g.node_at(k, i);
            assert(node_hit(g, k, i, h@, ps@, s));
            assert(g.node_ok(n));
            assert forall|j: int| 0 <= j < n.args.len() implies g.is_root(#[trigger] n.args[j]) by {
                law_canonicity(g, k, i, j);
            }
            lemma_kids_sound(g, ps@, ps@.len(), s, n.args);
            let sub = inst_args(g, ps@, ps@.len(), s);
            assert(sub.1 =~= n.args);
            let made = Node { head: h@, args: sub.1 };
            assert(made == n);
            lemma_canon(g, n);
            law_memo_agreement(g, n, k, i);
        },
    }
}

/// The same for the first `n` argument patterns.
pub proof fn lemma_kids_sound(g: Graph, ps: Seq<Pattern>, n: nat, s: Subst, args: Seq<usize>)
    requires
        g.clean(),
        forall|j: int| 0 <= j < args.len() ==> g.is_root(#[trigger] args[j]),
        kids_match(g, ps, n, s, args),
    ensures
        inst_args(g, ps, n, s) == (g, args.subrange(0, n as int)),
    decreases ps, n,
{
    if n > 0 {
        lemma_kids_sound(g, ps, (n - 1) as nat, s, args);
        assert(g.is_root(args[n - 1]));
        law_match_sound(g, ps[n - 1], s, args[n - 1]);
        assert(args.subrange(0, n - 1).push(args[n - 1]) =~= args.subrange(0, n as int));
    } else {
        assert(args.subrange(0, 0) =~= Seq::<usize>::empty());
    }
}

/// Whether `after` has all ids of `before` with their representatives, and
/// all entries of its hash-cons table.
pub open spec fn grows(before: Graph, after: Graph) -> bool {
    &&& before.roots.len() <= after.roots.len()
    &&& forall|a: int| 0 <= a < before.roots.len() ==> #[trigger] after.roots[a] == before.roots[a]
    &&& forall|n: Node| #[trigger]
        before.memo.contains_key(n) ==> after.memo.contains_key(n) && after.memo[n]
            == before.memo[n]
}

/// Whether the term is held as class `id` in every graph that `g` grows
/// into: inserting it again gives `id` and changes nothing.
#[verifier::opaque]
pub open spec fn kept(g: Graph, t: Term, id: usize) -> bool {
    forall|g2: Graph| #[trigger] grows(g, g2) ==> ins(g2, t) == (g2, id)
}

/// Whether the first `n` terms are held as the classes `ids` in every graph
/// that `g` grows into.
#[verifier::opaque]
pub open spec fn all_kept(g: Graph, ts: Seq<Term>, n: nat, ids: Seq<usize>) -> bool {
    forall|g2: Graph| #[trigger] grows(g, g2) ==> ins_args(g2, ts, n) == (g2, ids)
}

proof fn lemma_pushed_kept(g: Graph, marks: Seq<usize>, n: Node, g2: Graph)
    requires
        g.inv(marks),
        g.node_ok(n),
        g.canonical(n),
        g.memo.contains_key(n) || g.roots.len() < usize::MAX,
        grows(pushed(g, n).0, g2),
    ensures
        grows(g, pushed(g, n).0),
        pushed(g2, n) == (g2, pushed(g, n).1),
{
    let r = pushed(g, n);
    lemma_canon(g, n);
    assert(g.canon(n) == n);
    assert(g2.canon(n).args =~= n.args) by {
        assert forall|j: int| 0 <= j < n.args.len() implies g2.canon(n).args[j] == n.args[j] by {
            assert(g.is_root(n.args[j]));
            if g.memo.contains_key(n) {
            } else {
                assert(r.0.roots[n.args[j] as int] == g.roots[n.args[j] as int]);
            }
        }
    }
    assert(g2.canon(n) == n);
    if g.memo.contains_key(n) {
        let v = g.memo[n];
        assert(g.roots[v as int] <= v);
    } else {
        let id = g.roots.len() as usize;
        assert(r.0.roots[id as int] == id);
        assert forall|a: int| 0 <= a < g.roots.len() implies #[trigger] r.0.roots[a]
            == g.roots[a] by {}
        assert(r.0.memo.contains_key(n));
    }
}

/// Growth is transitive.
pub proof fn lemma_grows_trans(g1: Graph, g2: Graph, g3: Graph)
    requires
        grows(g1, g2),
        grows(g2, g3),
    ensures
        grows(g1, g3),
{
    assert forall|a: int| 0 <= a < g1.roots.len() implies #[trigger] g3.roots[a] == g1.roots[a] by {
        assert(g2.roots[a] == g1.roots[a]);
    }
}

/// Before any argument is inserted, none is held.
pub proof fn lemma_kept_start(g: Graph, ts: Seq<Term>)
    ensures
        all_kept(g, ts, 0, Seq::empty()),
{
    reveal(all_kept);
}

/// One more argument is held.
pub proof fn lemma_kept_step(
    before: Graph,
    now: Graph,
    ts: Seq<Term>,
    n: nat,
    ids: Seq<usize>,
    id: usize,
)
    requires
        n < ts.len(),
        all_kept(before, ts, n, ids),
        grows(before, now),
        kept(now, ts[n as int], id),
    ensures
        all_kept(now, ts, n + 1, ids.push(id)),
{
    reveal(all_kept);
    reveal(kept);
    assert forall|g2: Graph| #[trigger] grows(now, g2) implies ins_args(g2, ts, n + 1) == (
        g2,
        ids.push(id),
    ) by {
        lemma_grows_trans(before, now, g2);
        assert(ins_args(g2, ts, n) == (g2, ids));
        assert(ins(g2, ts[n as int]) == (g2, id));
    }
}

/// A term whose arguments are held is held once its node has been pushed.
pub proof fn lemma_kept_node(
    before: Graph,
    marks: Seq<usize>,
    now: Graph,
    t: Term,
    ids: Seq<usize>,
    id: usize,
)
    requires
        before.inv(marks),
        all_kept(before, t.args@, t.args@.len(), ids),
        forall|x: int| 0 <= x < ids.len() ==> before.is_root(#[trigger] ids[x]),
        (now, id) == pushed(before, Node { head: unquoted(t.head@), args: ids }),
        before.memo.contains_key(Node { head: unquoted(t.head@), args: ids })
            || before.roots.len() < usize::MAX,
    ensures
        kept(now, t, id),
        grows(before, now),
{
    reveal(all_kept);
    reveal(kept);
    let n = Node { head: unquoted(t.head@), args: ids };
    assert(before.node_ok(n) && before.canonical(n)) by {
        assert forall|j: int| 0 <= j < n.args.len() implies before.is_root(#[trigger] n.args[j]) by {
            assert(before.is_root(ids[j]));
        }
    }
    assert(grows(now, now));
    lemma_pushed_kept(before, marks, n, now);
    assert forall|g2: Graph| #[trigger] grows(now, g2) implies ins(g2, t) == (g2, id) by {
        lemma_grows_trans(before, now, g2);
        assert(ins_args(g2, t.args@, t.args@.len()) == (g2, ids));
        lemma_pushed_kept(before, marks, n, g2);
    }
}

/// Insertion is idempotent: a term that an insertion has left held is found
/// again in its class by every later insertion, which changes nothing.
pub proof fn law_insert_idempotent(g: Graph, t: Term, id: usize)
    requires
        kept(g, t, id),
    ensures
        ins(g, t) == (g, id),
        ins(ins(g, t).0, t) == ins(g, t),
{
    reveal(kept);
    assert(grows(g, g));
}

/// The equivalence of a graph, as a relation between ids.
pub open spec fn class_rel(g: Graph) -> Rel {
    |a: usize, b: usize| g.same_class(a, b)
}

/// The classes of a clean e-graph are a congruence of every graph with the
/// same ids that it extends.
pub proof fn law_clean_is_congruence(before: Graph, marks: Seq<usize>, after: Graph)
    requires
        before.inv(marks),
        extends(before, after),
        after.clean(),
        before.roots.len() == after.roots.len(),
    ensures
        closed_over(before, class_rel(after)),
{
    let r = class_rel(after);
    reveal(equivalence);
    reveal(includes);
    reveal(congruence);
    assert(before.ids_ok(Seq::empty()));
    assert forall|a: usize| a < before.roots.len() implies r(a, #[trigger] before.find(a)) by {
        assert(before.roots[a as int] <= a);
        assert(before.roots[before.roots[a as int] as int] == before.roots[a as int]);
        assert(before.same_class(a, before.find(a)));
    }
    assert forall|k1: usize, i1: int, k2: usize, i2: int|
        #![trigger before.has_node(k1, i1), before.has_node(k2, i2)]
        before.has_node(k1, i1) && before.has_node(k2, i2) && alike(
            r,
            before.node_at(k1, i1),
            before.node_at(k2, i2),
        ) implies r(k1, k2) by {
        let n1 = before.node_at(k1, i1);
        let n2 = before.node_at(k2, i2);
        assert forall|j: int| 0 <= j < n1.args.len() implies after.find(#[trigger] n1.args[j])
            == after.find(n2.args[j]) by {
            assert(r(n1.args[j], n2.args[j]));
        }
        law_congruence_propagates(before, marks, after, k1, i1, k2, i2);
    }
}

/// Whether every member node of `after` is the canonical form of a member
/// of `before` whose class has become its class.
pub open spec fn rooted(before: Graph, after: Graph) -> bool {
    forall|k: usize, i: int| #[trigger]
        after.has_node(k, i) ==> exists|k0: usize, i0: int| #[trigger]
            before.has_node(k0, i0) && after.find(k0) == k && after.canon(before.node_at(k0, i0))
                == after.node_at(k, i)
}

/// Nothing is made up: a clean e-graph that keeps what a well-formed one
/// justifies has no member node but the canonical forms of the old members.
pub proof fn law_nothing_made_up(before: Graph, marks: Seq<usize>, after: Graph)
    requires
        before.inv(marks),
        before.parents_sound(),
        extends(before, after),
        keeps(before, after, Seq::empty()),
        after.clean(),
        before.roots.len() == after.roots.len(),
    ensures
        rooted(before, after),
{
    let r = class_rel(after);
    law_clean_is_congruence(before, marks, after);
    lemma_self_backed(before, marks, r);
    assert(backed(before, r, after));
    assert forall|k: usize, i: int| #[trigger] after.has_node(k, i) implies exists|
        k0: usize,
        i0: int,
    | #[trigger]
        before.has_node(k0, i0) && after.find(k0) == k && after.canon(before.node_at(k0, i0))
            == after.node_at(k, i) by {
        reveal(backed_node);
        let n = after.node_at(k, i);
        assert(backed_node(before, r, n, k));
        let (k0, i0) = choose|k0: usize, i0: int| #[trigger] backs(before, r, k0, i0, n, k);
        let m = before.node_at(k0, i0);
        assert(after.is_root(k));
        assert(after.canon(m).args =~= n.args) by {
            assert forall|j: int| 0 <= j < n.args.len() implies after.canon(m).args[j]
                == n.args[j] by {
                assert(r(m.args[j], n.args[j]));
                law_canonicity(after, k, i, j);
            }
        }
        assert(after.canon(m) == n);
    }
}

/// In a clean e-graph an instance lives in one class: two classes that
/// hold an instance of one pattern under one substitution are the same.
pub proof fn law_instance_unique(g: Graph, p: Pattern, s: Subst, a: usize, b: usize)
    requires
        g.clean(),
        a < g.roots.len(),
        b < g.roots.len(),
        holds_instance(g, p, s, a),
        holds_instance(g, p, s, b),
    ensures
        g.find(a) == g.find(b),
    decreases p, 0nat,
{
    match p {
        Pattern::PatVar(v) => {},
        Pattern::PatTerm(h, ps) => {
            let ka = g.find(a);
            let kb = g.find(b);
            assert(g.roots[a as int] <= a && g.roots[b as int] <= b);
            let i = choose|i: int| #[trigger]
                g.has_node(ka, i) && g.node_at(ka, i).head == h@ && g.node_at(ka, i).args.len()
                    == ps@.len() && kids_hold(g, ps@, ps@.len(), s, g.node_at(ka, i).args);
            let j = choose|j: int| #[trigger]
                g.has_node(kb, j) && g.node_at(kb, j).head == h@ && g.node_at(kb, j).args.len()
                    == ps@.len() && kids_hold(g, ps@, ps@.len(), s, g.node_at(kb, j).args);
            let n = g.node_at(ka, i);
            let m = g.node_at(kb, j);
            assert(g.node_ok(n) && g.node_ok(m));
            lemma_kids_unique(g, ps@, ps@.len(), s, n.args, m.args);
            assert forall|x: int| 0 <= x < n.args.len() implies g.find(#[trigger] n.args[x])
                == g.find(m.args[x]) by {}
            law_congruence_closed(g, ka, i, kb, j);
        },
    }
}

/// The same for the first `n` argument patterns.
pub proof fn lemma_kids_unique(
    g: Graph,
    ps: Seq<Pattern>,
    n: nat,
    s: Subst,
    args: Seq<usize>,
    args2: Seq<usize>,
)
    requires
        g.clean(),
        forall|x: int| 0 <= x < args.len() ==> (#[trigger] args[x]) < g.roots.len(),
        forall|x: int| 0 <= x < args2.len() ==> (#[trigger] args2[x]) < g.roots.len(),
        kids_hold(g, ps, n, s, args),
        kids_hold(g, ps, n, s, args2),
    ensures
        forall|x: int| 0 <= x < n ==> g.find(#[trigger] args[x]) == g.find(args2[x]),
    decreases ps, n,
{
    if n > 0 {
        lemma_kids_unique(g, ps, (n - 1) as nat, s, args, args2);
        law_instance_unique(g, ps[n - 1], s, args[n - 1], args2[n - 1]);
    }
}

/// Whether `s` is the union of the substitutions at places `x` and `y`, which agree.
pub open spec fn joins(left: Seq<Subst>, right: Seq<Subst>, x: int, y: int, s: Subst) -> bool {
    0 <= x < left.len() && 0 <= y < right.len() && consistent(left[x], right[y]) && s
        == left[x].union_prefer_right(right[y])
}

/// Whether no union comes from two pairs of places.
pub open spec fn joins_once(left: Seq<Subst>, right: Seq<Subst>) -> bool {
    forall|x: int, y: int, x2: int, y2: int, s: Subst|
        #[trigger] joins(left, right, x, y, s) && #[trigger] joins(left, right, x2, y2, s) ==> x
            == x2 && y == y2
}

/// Whether every one of `ms` is a union of one of the first `n` of `left`
/// with one of the first `m` of `right`, and none comes twice.
pub open spec fn joined_once(
    left: Seq<Subst>,
    right: Seq<Subst>,
    lo: int,
    n: int,
    m: int,
    ms: Seq<Subst>,
) -> bool {
    &&& ms.no_duplicates()
    &&& forall|z: int| 0 <= z < ms.len() ==> came_from(left, right, lo, n, m, #[trigger] ms[z])
}

/// Whether `s` is a union of one of `left` from place `lo` to `n` with one
/// of the first `m` of `right`.
pub open spec fn came_from(
    left: Seq<Subst>,
    right: Seq<Subst>,
    lo: int,
    n: int,
    m: int,
    s: Subst,
) -> bool {
    exists|x: int, y: int| #[trigger] joins(left, right, x, y, s) && lo <= x < n && y < m
}

proof fn lemma_row_once(left: Seq<Subst>, right: Seq<Subst>, x: int, m: nat)
    requires
        0 <= x < left.len(),
        m <= right.len(),
        joins_once(left, right),
    ensures
        joined_once(left, right, x, x + 1, m as int, merged_row(left[x], right, m)),
    decreases m,
{
    let a = left[x];
    if m > 0 {
        lemma_row_once(left, right, x, (m - 1) as nat);
        let before = merged_row(a, right, (m - 1) as nat);
        let now = merged_row(a, right, m);
        if consistent(a, right[m - 1]) {
            let s = a.union_prefer_right(right[m - 1]);
            assert(joins(left, right, x, m - 1, s));
            assert forall|z: int| 0 <= z < now.len() implies came_from(
                left,
                right,
                x,
                x + 1,
                (m) as int,
                #[trigger] now[z],
            ) by {
                if z < before.len() {
                    let (x1, y1) = choose|x1: int, y1: int| #[trigger]
                        joins(left, right, x1, y1, before[z]) && x <= x1 < x + 1 && y1 < m - 1;
                    assert(joins(left, right, x1, y1, now[z]));
                }
            }
            assert forall|i: int, j: int|
                0 <= i < now.len() && 0 <= j < now.len() && i != j implies now[i] != now[j] by {
                if i < before.len() && j < before.len() {
                } else {
                    let other = if i < before.len() {
                        i
                    } else {
                        j
                    };
                    let (x1, y1) = choose|x1: int, y1: int| #[trigger]
                        joins(left, right, x1, y1, before[other]) && x <= x1 < x + 1 && y1 < m
                            - 1;
                    if before[other] == s {
                        assert(joins(left, right, x1, y1, s));
                    }
                }
            }
        } else {
            assert forall|z: int| 0 <= z < now.len() implies came_from(
                left,
                right,
                x,
                x + 1,
                (m) as int,
                #[trigger] now[z],
            ) by {
                let (x1, y1) = choose|x1: int, y1: int| #[trigger]
                    joins(left, right, x1, y1, before[z]) && x <= x1 < x + 1 && y1 < m - 1;
                assert(joins(left, right, x1, y1, now[z]));
            }
        }
    }
}

/// Where no union comes from two pairs, the product holds every union once.
pub proof fn lemma_products_once(left: Seq<Subst>, right: Seq<Subst>, n: nat)
    requires
        n <= left.len(),
        joins_once(left, right),
    ensures
        joined_once(left, right, 0, n as int, right.len() as int, products(left, right, n)),
    decreases n,
{
    if n > 0 {
        lemma_products_once(left, right, (n - 1) as nat);
        lemma_row_once(left, right, n - 1, right.len());
        let before = products(left, right, (n - 1) as nat);
        let row = merged_row(left[n - 1], right, right.len());
        let now = products(left, right, n);
        assert(now == before + row);
        assert forall|z: int| 0 <= z < now.len() implies came_from(
                left,
                right,
                0,
                n as int,
                (right.len()) as int,
                #[trigger] now[z],
            ) by {
            if z < before.len() {
                let (x1, y1) = choose|x1: int, y1: int| #[trigger]
                    joins(left, right, x1, y1, before[z]) && 0 <= x1 < n - 1 && y1 < right.len();
                assert(joins(left, right, x1, y1, now[z]));
            } else {
                let w = z - before.len();
                let (x1, y1) = choose|x1: int, y1: int| #[trigger]
                    joins(left, right, x1, y1, row[w]) && n - 1 <= x1 < n && y1 < right.len();
                assert(joins(left, right, x1, y1, now[z]));
            }
        }
        assert forall|i: int, j: int|
            0 <= i < now.len() && 0 <= j < now.len() && i != j implies now[i] != now[j] by {
            if i < before.len() && j < before.len() {
            } else if i >= before.len() && j >= before.len() {
                assert(row[i - before.len()] != row[j - before.len()]);
            } else {
                let lo = if i < before.len() {
                    i
                } else {
                    j
                };
                let hi = if i < before.len() {
                    j
                } else {
                    i
                };
                let (x1, y1) = choose|x1: int, y1: int| #[trigger]
                    joins(left, right, x1, y1, before[lo]) && 0 <= x1 < n - 1 && y1 < right.len();
                let (x2, y2) = choose|x2: int, y2: int| #[trigger]
                    joins(left, right, x2, y2, row[hi - before.len()]) && n - 1 <= x2 < n && y2
                        < right.len();
                if now[i] == now[j] {
                    assert(joins(left, right, x1, y1, now[lo]));
                    assert(joins(left, right, x2, y2, now[lo]));
                }
            }
        }
    }
}

/// Whether the list holds matches of `p` in class `c`, each on the
/// variables of `p`, and none twice.
pub open spec fn matches_once(g: Graph, p: Pattern, c: usize, ms: Seq<Subst>) -> bool {
    &&& ms.no_duplicates()
    &&& forall|z: int|
        0 <= z < ms.len() ==> (#[trigger] ms[z]).dom() == p.vars() && is_match(g, p, ms[z], c)
}

/// The same for the first `n` argument patterns.
pub open spec fn kids_once(
    g: Graph,
    ps: Seq<Pattern>,
    n: nat,
    args: Seq<usize>,
    ms: Seq<Subst>,
) -> bool {
    &&& ms.no_duplicates()
    &&& forall|z: int|
        0 <= z < ms.len() ==> (#[trigger] ms[z]).dom() == vars_upto(ps, n) && kids_match(
            g,
            ps,
            n,
            ms[z],
            args,
        )
}

/// The same for the first `m` members of class `k`.
pub open spec fn members_once(
    g: Graph,
    k: usize,
    h: Seq<char>,
    ps: Seq<Pattern>,
    m: nat,
    ms: Seq<Subst>,
) -> bool {
    &&& ms.no_duplicates()
    &&& forall|z: int|
        0 <= z < ms.len() ==> (#[trigger] ms[z]).dom() == vars_upto(ps, ps.len()) && exists|
            i: int,
        | 0 <= i < m && #[trigger] node_hit(g, k, i, h, ps, ms[z])
}

/// In a clean e-graph whose classes hold no member twice, no match of a
/// pattern in a class comes twice, and every one binds exactly the
/// variables of the pattern.
pub proof fn law_matches_once(g: Graph, p: Pattern, c: usize)
    requires
        g.clean(),
        g.members_distinct(),
        c < g.roots.len(),
    ensures
        matches_once(g, p, c, all_matches(g, p, c)),
    decreases p, 0nat, 0nat,
{
    let ms = all_matches(g, p, c);
    assert(g.roots[c as int] <= c);
    match p {
        Pattern::PatVar(v) => {
            assert(ms[0].dom() =~= p.vars());
        },
        Pattern::PatTerm(h, ps) => {
            let k = g.find(c);
            assert(g.is_root(k));
            let m = g.classes[k].nodes.len();
            lemma_members_once(g, k, h@, ps@, m);
            assert forall|z: int| 0 <= z < ms.len() implies (#[trigger] ms[z]).dom() == p.vars()
                && is_match(g, p, ms[z], c) by {
                let i = choose|i: int| 0 <= i < m && #[trigger] node_hit(g, k, i, h@, ps@, ms[z]);
                assert(g.has_node(g.find(c), i));
            }
        },
    }
}

/// The same for the first `m` members of class `k`.
pub proof fn lemma_members_once(g: Graph, k: usize, h: Seq<char>, ps: Seq<Pattern>, m: nat)
    requires
        g.clean(),
        g.members_distinct(),
        g.is_root(k),
        m <= g.classes[k].nodes.len(),
    ensures
        members_once(g, k, h, ps, m, class_matches(g, k, h, ps, m)),
    decreases ps, ps.len() + 1, m,
{
    if m > 0 {
        lemma_members_once(g, k, h, ps, (m - 1) as nat);
        let before = class_matches(g, k, h, ps, (m - 1) as nat);
        let now = class_matches(g, k, h, ps, m);
        assert(g.classes.contains_key(k));
        assert(g.has_node(k, m - 1));
        let n = g.node_at(k, m - 1);
        assert(g.node_ok(n));
        if n.head == h && n.args.len() == ps.len() {
            lemma_kids_once(g, ps, ps.len(), n.args);
            let here = kid_matches(g, ps, ps.len(), n.args);
            assert(now == before + here);
            assert forall|z: int| 0 <= z < now.len() implies (#[trigger] now[z]).dom()
                == vars_upto(ps, ps.len()) && exists|i: int|
                0 <= i < m && #[trigger] node_hit(g, k, i, h, ps, now[z]) by {
                if z < before.len() {
                    assert(now[z] == before[z]);
                    let i = choose|i: int|
                        0 <= i < m - 1 && #[trigger] node_hit(g, k, i, h, ps, before[z]);
                    assert(node_hit(g, k, i, h, ps, now[z]));
                } else {
                    assert(now[z] == here[z - before.len()]);
                    assert(node_hit(g, k, m - 1, h, ps, now[z]));
                }
            }
            assert forall|i: int, j: int|
                0 <= i < now.len() && 0 <= j < now.len() && i != j implies now[i] != now[j] by {
                if i < before.len() && j < before.len() {
                } else if i >= before.len() && j >= before.len() {
                    assert(here[i - before.len()] != here[j - before.len()]);
                } else {
                    let lo = if i < before.len() {
                        i
                    } else {
                        j
                    };
                    if now[i] == now[j] {
                        let s = before[lo];
                        let x = choose|x: int|
                            0 <= x < m - 1 && #[trigger] node_hit(g, k, x, h, ps, s);
                        lemma_one_member(g, k, x, m - 1, ps, s);
                    }
                }
            }
        } else {
            assert forall|z: int| 0 <= z < now.len() implies (#[trigger] now[z]).dom()
                == vars_upto(ps, ps.len()) && exists|i: int|
                0 <= i < m && #[trigger] node_hit(g, k, i, h, ps, now[z]) by {
                let i = choose|i: int|
                    0 <= i < m - 1 && #[trigger] node_hit(g, k, i, h, ps, before[z]);
                assert(node_hit(g, k, i, h, ps, now[z]));
            }
        }
    }
}

/// In a clean e-graph two members whose arguments hold instances of the
/// same patterns under one substitution are one member.
proof fn lemma_one_member(g: Graph, k: usize, i: int, j: int, ps: Seq<Pattern>, s: Subst)
    requires
        g.clean(),
        g.members_distinct(),
        g.has_node(k, i),
        g.has_node(k, j),
        g.node_at(k, i).head == g.node_at(k, j).head,
        g.node_at(k, i).args.len() == ps.len(),
        g.node_at(k, j).args.len() == ps.len(),
        kids_match(g, ps, ps.len(), s, g.node_at(k, i).args),
        kids_match(g, ps, ps.len(), s, g.node_at(k, j).args),
    ensures
        i == j,
{
    let a = g.node_at(k, i);
    let b = g.node_at(k, j);
    let none = Seq::<usize>::empty();
    assert(g.node_ok(a) && g.node_ok(b));
    lemma_kids_match_instance(g, none, ps, ps.len(), s, a.args);
    lemma_kids_match_instance(g, none, ps, ps.len(), s, b.args);
    lemma_kids_unique(g, ps, ps.len(), s, a.args, b.args);
    assert(a.args =~= b.args) by {
        assert forall|x: int| 0 <= x < a.args.len() implies a.args[x] == b.args[x] by {
            law_canonicity(g, k, i, x);
            law_canonicity(g, k, j, x);
            assert(g.find(a.args[x]) == g.find(b.args[x]));
        }
    }
    assert(a == b);
}

/// The same for the first `n` argument patterns.
pub proof fn lemma_kids_once(g: Graph, ps: Seq<Pattern>, n: nat, args: Seq<usize>)
    requires
        g.clean(),
        g.members_distinct(),
        n <= ps.len(),
        n <= args.len(),
        forall|x: int| 0 <= x < args.len() ==> (#[trigger] args[x]) < g.roots.len(),
    ensures
        kids_once(g, ps, n, args, kid_matches(g, ps, n, args)),
    decreases ps, n, 0nat,
{
    let now = kid_matches(g, ps, n, args);
    if n == 0 {
        assert(now[0].dom() =~= vars_upto(ps, 0));
    } else {
        lemma_kids_once(g, ps, (n - 1) as nat, args);
        law_matches_once(g, ps[n - 1], args[n - 1]);
        let left = kid_matches(g, ps, (n - 1) as nat, args);
        let right = all_matches(g, ps[n - 1], args[n - 1]);
        let va = vars_upto(ps, (n - 1) as nat);
        let vb = ps[n - 1].vars();
        assert forall|x: int, y: int, x2: int, y2: int, s: Subst|
            #[trigger] joins(left, right, x, y, s) && #[trigger] joins(
                left,
                right,
                x2,
                y2,
                s,
            ) implies x == x2 && y == y2 by {
            assert(left[x].dom() == va && left[x2].dom() == va);
            assert(right[y].dom() == vb && right[y2].dom() == vb);
            assert(left[x] =~= left[x2]) by {
                assert forall|q: Seq<char>| left[x].contains_key(q) implies left[x][q]
                    == left[x2][q] by {
                    assert(s[q] == left[x][q]);
                    assert(s[q] == left[x2][q]);
                }
            }
            assert(right[y] =~= right[y2]) by {
                assert forall|q: Seq<char>| right[y].contains_key(q) implies right[y][q]
                    == right[y2][q] by {
                    assert(s[q] == right[y][q]);
                    assert(s[q] == right[y2][q]);
                }
            }
        }
        lemma_products_once(left, right, left.len());
        assert forall|z: int| 0 <= z < now.len() implies (#[trigger] now[z]).dom() == vars_upto(
            ps,
            n,
        ) && kids_match(g, ps, n, now[z], args) by {
            let (x, y) = choose|x: int, y: int| #[trigger]
                joins(left, right, x, y, now[z]) && 0 <= x < left.len() && y < right.len();
            lemma_step_sound(g, ps, (n - 1) as nat, args, left[x], right[y]);
        }
    }
}

} // verus!
