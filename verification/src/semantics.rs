use vstd::prelude::*;
use crate::model::{added, dropped, lemma_canon, merged, moved, rekeyed, with_parents, Graph};
use crate::bindings::Subst;
use crate::node::Node;
use crate::term::{unquoted, Pattern, Rule, Term};

verus! {

/// What a class stands for.
pub type Value = int;

/// The value that each id stands for.
pub type Valuation = spec_fn(usize) -> Value;

/// The meaning of the operators: the value of an operator applied to values.
pub type Interp = spec_fn(Seq<char>, Seq<Value>) -> Value;

/// The values of a list of ids.
pub open spec fn values(val: Valuation, args: Seq<usize>) -> Seq<Value> {
    Seq::new(args.len(), |j: int| val(args[j]))
}

/// The value of a node: that of its operator applied to the values of its arguments.
pub open spec fn node_value(val: Valuation, op: Interp, n: Node) -> Value {
    op(n.head, values(val, n.args))
}

/// Whether every id has the value of its representative.
#[verifier::opaque]
pub open spec fn respects(g: Graph, val: Valuation) -> bool {
    forall|a: usize| a < g.roots.len() ==> val(a) == val(#[trigger] g.find(a))
}

/// Whether the valuation is a model of the graph under the interpretation:
/// equivalent ids have one value, and it is the value of every member node
/// of their class.
pub open spec fn models(g: Graph, val: Valuation, op: Interp) -> bool {
    &&& respects(g, val)
    &&& forall|k: usize, i: int| #[trigger]
        g.has_node(k, i) ==> node_value(val, op, g.node_at(k, i)) == val(k)
}

/// Whether the two ids of every pair have one value.
pub open spec fn level(val: Valuation, pairs: Seq<(usize, usize)>) -> bool {
    forall|h: int| 0 <= h < pairs.len() ==> val((#[trigger] pairs[h]).0) == val(pairs[h].1)
}

/// Whether every model of `before` is a model of `after` in which the two
/// ids of every pair have one value.
pub open spec fn sound(before: Graph, after: Graph, pairs: Seq<(usize, usize)>) -> bool {
    forall|val: Valuation, op: Interp| #[trigger]
        models(before, val, op) ==> models(after, val, op) && level(val, pairs)
}

/// Whether every model of `before` in which `a` and `b` have one value is a
/// model of `after`.
pub open spec fn sound_with(before: Graph, after: Graph, a: usize, b: usize) -> bool {
    forall|val: Valuation, op: Interp|
        #[trigger] models(before, val, op) && val(a) == val(b) ==> models(after, val, op)
}

/// Whether `wider` gives the first `len` ids the values that `val` gives them.
pub open spec fn agree(val: Valuation, wider: Valuation, len: nat) -> bool {
    forall|a: usize| a < len ==> #[trigger] wider(a) == val(a)
}

/// `val` with the value `v` for the id `id`.
pub open spec fn with_value(val: Valuation, id: usize, v: Value) -> Valuation {
    |x: usize|
        if x == id {
            v
        } else {
            val(x)
        }
}

pub proof fn lemma_root_value(g: Graph, val: Valuation, a: usize)
    requires
        respects(g, val),
        a < g.roots.len(),
    ensures
        val(a) == val(g.find(a)),
{
    reveal(respects);
}

/// Lists of pairwise equivalent ids have the same values.
pub proof fn lemma_values_equal(g: Graph, val: Valuation, a: Seq<usize>, b: Seq<usize>)
    requires
        respects(g, val),
        a.len() == b.len(),
        forall|j: int|
            0 <= j < a.len() ==> (#[trigger] a[j]) < g.roots.len() && b[j] < g.roots.len()
                && g.find(a[j]) == g.find(b[j]),
    ensures
        values(val, a) == values(val, b),
{
    assert forall|j: int| 0 <= j < a.len() implies values(val, a)[j] == values(val, b)[j] by {
        assert(a[j] < g.roots.len());
        lemma_root_value(g, val, a[j]);
        lemma_root_value(g, val, b[j]);
    }
    assert(values(val, a) =~= values(val, b));
}

/// Congruent nodes have one value.
pub proof fn lemma_congruent_value(g: Graph, val: Valuation, op: Interp, a: Node, b: Node)
    requires
        respects(g, val),
        g.node_ok(a),
        g.node_ok(b),
        g.congruent(a, b),
    ensures
        node_value(val, op, a) == node_value(val, op, b),
{
    assert forall|j: int| 0 <= j < a.args.len() implies (#[trigger] a.args[j]) < g.roots.len()
        && b.args[j] < g.roots.len() && g.find(a.args[j]) == g.find(b.args[j]) by {}
    lemma_values_equal(g, val, a.args, b.args);
}

/// A node that a class holds has the value of the class.
pub proof fn lemma_held_value(
    g: Graph,
    marks: Seq<usize>,
    val: Valuation,
    op: Interp,
    k: usize,
    n: Node,
)
    requires
        g.ids_ok(marks),
        models(g, val, op),
        g.node_ok(n),
        g.holds(k, n),
    ensures
        node_value(val, op, n) == val(k),
{
    reveal(Graph::holds);
    let i = choose|i: int| #[trigger] g.has_node(k, i) && g.congruent(g.node_at(k, i), n);
    assert(g.node_ok(g.node_at(k, i)));
    lemma_congruent_value(g, val, op, g.node_at(k, i), n);
}

/// A key of the hash-cons table has the value of the id it is sent to.
pub proof fn lemma_memo_value(g: Graph, marks: Seq<usize>, val: Valuation, op: Interp, n: Node)
    requires
        g.inv(marks),
        models(g, val, op),
        g.memo.contains_key(n),
    ensures
        node_value(val, op, n) == val(g.memo[n]),
{
    let v = g.memo[n];
    let k = g.find(v);
    assert(g.in_class(k, n));
    let i = choose|i: int| #[trigger] g.has_node(k, i) && g.node_at(k, i) == n;
    lemma_root_value(g, val, v);
}

/// A class whose member has a canonical form that the hash-cons table
/// sends elsewhere has the value of that id.
pub proof fn lemma_hit_value(
    g: Graph,
    marks: Seq<usize>,
    val: Valuation,
    op: Interp,
    c: usize,
    i: int,
)
    requires
        g.inv(marks),
        models(g, val, op),
        g.has_node(c, i),
        g.memo.contains_key(g.canon(g.node_at(c, i))),
    ensures
        val(c) == val(g.memo[g.canon(g.node_at(c, i))]),
{
    let t = g.node_at(c, i);
    lemma_canon(g, t);
    lemma_congruent_value(g, val, op, t, g.canon(t));
    lemma_memo_value(g, marks, val, op, g.canon(t));
}

/// Bringing a member into canonical form keeps every model.
pub proof fn lemma_rekey_models(
    g: Graph,
    marks: Seq<usize>,
    val: Valuation,
    op: Interp,
    c: usize,
    i: int,
)
    requires
        g.inv(marks),
        models(g, val, op),
        g.has_node(c, i),
    ensures
        models(rekeyed(g, c, i), val, op),
{
    let g2 = rekeyed(g, c, i);
    let t = g.node_at(c, i);
    assert(respects(g2, val)) by {
        reveal(respects);
        assert forall|a: usize| a < g2.roots.len() implies val(a) == val(#[trigger] g2.find(a)) by {
            assert(g2.find(a) == g.find(a));
        }
    }
    lemma_canon(g, t);
    assert forall|k: usize, x: int| #[trigger] g2.has_node(k, x) implies node_value(
        val,
        op,
        g2.node_at(k, x),
    ) == val(k) by {
        assert(g.has_node(k, x));
        if k == c && x == i {
            lemma_congruent_value(g, val, op, t, g.canon(t));
        }
    }
}

/// Removing a member keeps every model.
pub proof fn lemma_drop_models(g: Graph, val: Valuation, op: Interp, c: usize, i: int)
    requires
        models(g, val, op),
        g.has_node(c, i),
    ensures
        models(dropped(g, c, i), val, op),
{
    let g2 = dropped(g, c, i);
    assert(respects(g2, val)) by {
        reveal(respects);
        assert forall|a: usize| a < g2.roots.len() implies val(a) == val(#[trigger] g2.find(a)) by {
            assert(g2.find(a) == g.find(a));
        }
    }
    assert forall|k: usize, x: int| #[trigger] g2.has_node(k, x) implies node_value(
        val,
        op,
        g2.node_at(k, x),
    ) == val(k) by {
        let y = if k == c && x >= i {
            x + 1
        } else {
            x
        };
        assert(g.has_node(k, y));
        assert(g2.node_at(k, x) == g.node_at(k, y));
    }
}

/// Absorbing a class into one of the same value keeps the model.
pub proof fn lemma_merge_models(
    g: Graph,
    marks: Seq<usize>,
    val: Valuation,
    op: Interp,
    s: usize,
    f: usize,
)
    requires
        g.inv(marks),
        models(g, val, op),
        g.is_root(s),
        g.is_root(f),
        s < f,
        val(s) == val(f),
    ensures
        models(merged(g, s, f), val, op),
{
    let g2 = merged(g, s, f);
    let ns = g.classes[s].nodes.len() as int;
    assert(g.classes.contains_key(s) && g.classes.contains_key(f));
    assert forall|x: int| 0 <= x < g.roots.len() implies #[trigger] g2.roots[x] == moved(
        g.roots[x],
        s,
        f,
    ) by {}
    assert(respects(g2, val)) by {
        reveal(respects);
        assert forall|a: usize| a < g2.roots.len() implies val(a) == val(#[trigger] g2.find(a)) by {
            assert(val(a) == val(g.find(a)));
        }
    }
    assert forall|k: usize, x: int| #[trigger] g2.has_node(k, x) implies node_value(
        val,
        op,
        g2.node_at(k, x),
    ) == val(k) by {
        if k == s && x >= ns {
            assert(g.has_node(f, x - ns));
            assert(g2.node_at(k, x) == g.node_at(f, x - ns));
        } else {
            assert(g.has_node(k, x));
            assert(g2.node_at(k, x) == g.node_at(k, x));
        }
    }
}

/// Replacing a parent list keeps every model.
pub proof fn lemma_set_parents_models(
    g: Graph,
    val: Valuation,
    op: Interp,
    s: usize,
    ps: Seq<(Node, usize)>,
)
    requires
        models(g, val, op),
        g.classes.contains_key(s),
    ensures
        models(with_parents(g, s, ps), val, op),
{
    let g2 = with_parents(g, s, ps);
    assert(respects(g2, val)) by {
        reveal(respects);
        assert forall|a: usize| a < g2.roots.len() implies val(a) == val(#[trigger] g2.find(a)) by {
            assert(g2.find(a) == g.find(a));
        }
    }
    assert forall|k: usize, x: int| #[trigger] g2.has_node(k, x) implies node_value(
        val,
        op,
        g2.node_at(k, x),
    ) == val(k) by {
        assert(g.has_node(k, x));
    }
}

/// A model of a graph grows into a model of the graph with a new class,
/// which gets the value of its node.
pub proof fn lemma_add_models(g: Graph, marks: Seq<usize>, val: Valuation, op: Interp, n: Node)
    requires
        g.inv(marks),
        g.node_ok(n),
        g.roots.len() < usize::MAX,
        models(g, val, op),
    ensures
        models(
            added(g, n),
            with_value(val, g.roots.len() as usize, node_value(val, op, n)),
            op,
        ),
        agree(
            val,
            with_value(val, g.roots.len() as usize, node_value(val, op, n)),
            g.roots.len(),
        ),
{
    let g2 = added(g, n);
    let id = g.roots.len() as usize;
    let wider = with_value(val, id, node_value(val, op, n));
    assert(!g.classes.contains_key(id)) by {
        assert(!g.is_root(id));
    }
    assert forall|x: int| 0 <= x < g.roots.len() implies #[trigger] g2.roots[x] == g.roots[x] by {}
    assert(respects(g2, wider)) by {
        reveal(respects);
        assert forall|a: usize| a < g2.roots.len() implies wider(a) == wider(
            #[trigger] g2.find(a),
        ) by {
            if a < g.roots.len() {
                assert(g.roots[a as int] <= a);
                assert(val(a) == val(g.find(a)));
            }
        }
    }
    assert forall|m: Node| g.node_ok(m) implies #[trigger] values(wider, m.args) == values(
        val,
        m.args,
    ) by {
        assert forall|j: int| 0 <= j < m.args.len() implies values(wider, m.args)[j] == values(
            val,
            m.args,
        )[j] by {
            assert(m.args[j] < g.roots.len());
        }
        assert(values(wider, m.args) =~= values(val, m.args));
    }
    assert forall|k: usize, x: int| #[trigger] g2.has_node(k, x) implies node_value(
        wider,
        op,
        g2.node_at(k, x),
    ) == wider(k) by {
        if k == id {
            assert(g2.node_at(k, x) == n);
            assert(values(wider, n.args) == values(val, n.args));
        } else {
            assert(g.has_node(k, x));
            let m = g.node_at(k, x);
            assert(g2.node_at(k, x) == m);
            assert(g.node_ok(m));
            assert(values(wider, m.args) == values(val, m.args));
        }
    }
}

/// Whether every model of `before` grows into a model of `after` by giving
/// the id `id` the value of the node `n`.
#[verifier::opaque]
pub open spec fn pushed_sound(before: Graph, after: Graph, id: usize, n: Node) -> bool {
    forall|val: Valuation, op: Interp| #[trigger]
        models(before, val, op) ==> models(
            after,
            with_value(val, id, node_value(val, op, n)),
            op,
        ) && agree(val, with_value(val, id, node_value(val, op, n)), before.roots.len())
}

/// A model stays one when an id is given the value it has.
pub proof fn lemma_same_value(g: Graph, marks: Seq<usize>, val: Valuation, op: Interp, id: usize)
    requires
        g.ids_ok(marks),
        models(g, val, op),
    ensures
        models(g, with_value(val, id, val(id)), op),
{
    let wider = with_value(val, id, val(id));
    assert(respects(g, wider)) by {
        reveal(respects);
        assert forall|a: usize| a < g.roots.len() implies wider(a) == wider(
            #[trigger] g.find(a),
        ) by {
            assert(val(a) == val(g.find(a)));
        }
    }
    assert forall|k: usize, x: int| #[trigger] g.has_node(k, x) implies node_value(
        wider,
        op,
        g.node_at(k, x),
    ) == wider(k) by {
        assert(values(wider, g.node_at(k, x).args) =~= values(val, g.node_at(k, x).args));
    }
}

/// The value of a ground term.
pub open spec fn term_value(t: Term, op: Interp) -> Value
    decreases t, 0nat,
{
    op(unquoted(t.head@), term_values(t.args@, t.args@.len(), op))
}

/// The values of the first `n` terms.
pub open spec fn term_values(ts: Seq<Term>, n: nat, op: Interp) -> Seq<Value>
    decreases ts, n,
{
    if n == 0 || n > ts.len() {
        Seq::empty()
    } else {
        term_values(ts, (n - 1) as nat, op).push(term_value(ts[n - 1], op))
    }
}

/// The value that each variable stands for.
pub type Env = spec_fn(Seq<char>) -> Value;

/// The value of a pattern where the variables have the values of `env`.
pub open spec fn env_value(p: Pattern, env: Env, op: Interp) -> Value
    decreases p, 0nat,
{
    match p {
        Pattern::PatVar(v) => env(v@),
        Pattern::PatTerm(h, ps) => op(h@, env_values(ps@, ps@.len(), env, op)),
    }
}

/// The values of the first `n` patterns.
pub open spec fn env_values(ps: Seq<Pattern>, n: nat, env: Env, op: Interp) -> Seq<Value>
    decreases ps, n,
{
    if n == 0 || n > ps.len() {
        Seq::empty()
    } else {
        env_values(ps, (n - 1) as nat, env, op).push(env_value(ps[n - 1], env, op))
    }
}

/// The values of the variables under a substitution: those of the ids bound to them.
pub open spec fn env_of(val: Valuation, s: Subst) -> Env {
    |k: Seq<char>| val(s[k])
}

/// Whether the two sides of the rule have one value whatever the variables stand for.
pub open spec fn valid(rule: Rule, op: Interp) -> bool {
    forall|env: Env| #[trigger] env_value(rule.lhs, env, op) == env_value(rule.rhs, env, op)
}

/// Whether every model of `before` grows into a model of `after` in which
/// `id` has the value of the term `t`.
#[verifier::opaque]
pub open spec fn inserted_sound(before: Graph, after: Graph, t: Term, id: usize) -> bool {
    forall|val: Valuation, op: Interp| #[trigger]
        models(before, val, op) ==> exists|wider: Valuation| #[trigger]
            agree(val, wider, before.roots.len()) && models(after, wider, op) && wider(id)
                == term_value(t, op)
}

/// Whether every model of `before` grows into a model of `after` in which
/// `id` has the value of the pattern `p` under the substitution `s`.
#[verifier::opaque]
pub open spec fn instance_sound(
    before: Graph,
    after: Graph,
    p: Pattern,
    s: Subst,
    id: usize,
) -> bool {
    forall|val: Valuation, op: Interp| #[trigger]
        models(before, val, op) ==> exists|wider: Valuation| #[trigger]
            agree(val, wider, before.roots.len()) && models(after, wider, op) && wider(id)
                == env_value(p, env_of(val, s), op)
}

/// Whether every model of `before` in which the rule is valid grows into a
/// model of `after`.
#[verifier::opaque]
pub open spec fn rule_sound(before: Graph, after: Graph, rule: Rule) -> bool {
    forall|val: Valuation, op: Interp|
        #[trigger] models(before, val, op) && valid(rule, op) ==> exists|wider: Valuation| #[trigger]
            agree(val, wider, before.roots.len()) && models(after, wider, op)
}

/// The value of a pattern depends on the values of its variables alone.
pub proof fn lemma_env_agree(p: Pattern, e1: Env, e2: Env, op: Interp)
    requires
        forall|k: Seq<char>| #[trigger] p.vars().contains(k) ==> e1(k) == e2(k),
    ensures
        env_value(p, e1, op) == env_value(p, e2, op),
    decreases p, 0nat,
{
    match p {
        Pattern::PatVar(v) => {
            assert(p.vars().contains(v@));
        },
        Pattern::PatTerm(h, ps) => {
            assert forall|k: Seq<char>| #[trigger]
                crate::term::vars_upto(ps@, ps@.len()).contains(k) implies e1(k) == e2(k) by {
                assert(p.vars().contains(k));
            }
            lemma_envs_agree(ps@, ps@.len(), e1, e2, op);
        },
    }
}

/// The same for the first `n` patterns.
pub proof fn lemma_envs_agree(ps: Seq<Pattern>, n: nat, e1: Env, e2: Env, op: Interp)
    requires
        n <= ps.len(),
        forall|k: Seq<char>| #[trigger] crate::term::vars_upto(ps, n).contains(k) ==> e1(k) == e2(k),
    ensures
        env_values(ps, n, e1, op) == env_values(ps, n, e2, op),
    decreases ps, n,
{
    if n > 0 {
        assert forall|k: Seq<char>| #[trigger]
            crate::term::vars_upto(ps, (n - 1) as nat).contains(k) implies e1(k) == e2(k) by {
            assert(crate::term::vars_upto(ps, n).contains(k));
        }
        lemma_envs_agree(ps, (n - 1) as nat, e1, e2, op);
        assert forall|k: Seq<char>| #[trigger] ps[n - 1].vars().contains(k) implies e1(k) == e2(
            k,
        ) by {
            assert(crate::term::vars_upto(ps, n).contains(k));
        }
        lemma_env_agree(ps[n - 1], e1, e2, op);
    }
}

/// The values of the first `n` patterns are `n` values, those of the patterns.
pub proof fn lemma_env_values(ps: Seq<Pattern>, n: nat, env: Env, op: Interp)
    requires
        n <= ps.len(),
    ensures
        env_values(ps, n, env, op).len() == n,
        forall|j: int|
            0 <= j < n ==> #[trigger] env_values(ps, n, env, op)[j] == env_value(ps[j], env, op),
    decreases n,
{
    if n > 0 {
        lemma_env_values(ps, (n - 1) as nat, env, op);
    }
}

/// Whether every model of `before` grows into a model of `after` in which
/// the ids `ids` have the values of the first `n` terms.
#[verifier::opaque]
pub open spec fn args_sound(
    before: Graph,
    after: Graph,
    ts: Seq<Term>,
    n: nat,
    ids: Seq<usize>,
) -> bool {
    forall|val: Valuation, op: Interp| #[trigger]
        models(before, val, op) ==> exists|wider: Valuation| #[trigger]
            agree(val, wider, before.roots.len()) && models(after, wider, op) && values(
                wider,
                ids,
            ) == term_values(ts, n, op)
}

/// An atom that has been pushed has been inserted.
pub proof fn lemma_leaf_sound(was: Graph, now: Graph, t: Term, id: usize)
    requires
        t.args@.len() == 0,
        pushed_sound(was, now, id, Node { head: unquoted(t.head@), args: Seq::empty() }),
    ensures
        inserted_sound(was, now, t, id),
{
    reveal(pushed_sound);
    reveal(inserted_sound);
    let n = Node { head: unquoted(t.head@), args: Seq::<usize>::empty() };
    assert forall|val: Valuation, op: Interp| #[trigger] models(was, val, op) implies exists|
        wider: Valuation,
    | #[trigger]
        agree(val, wider, was.roots.len()) && models(now, wider, op) && wider(id) == term_value(
            t,
            op,
        ) by {
        let wider = with_value(val, id, node_value(val, op, n));
        assert(values(val, n.args) =~= term_values(t.args@, 0, op));
        assert(agree(val, wider, was.roots.len()));
    }
}

/// Before any argument is inserted, none has a value to show.
pub proof fn lemma_args_sound_start(g: Graph, ts: Seq<Term>)
    ensures
        args_sound(g, g, ts, 0, Seq::empty()),
{
    reveal(args_sound);
    assert forall|val: Valuation, op: Interp| #[trigger] models(g, val, op) implies exists|
        wider: Valuation,
    | #[trigger]
        agree(val, wider, g.roots.len()) && models(g, wider, op) && values(
            wider,
            Seq::<usize>::empty(),
        ) == term_values(ts, 0, op) by {
        assert(agree(val, val, g.roots.len()));
        assert(values(val, Seq::<usize>::empty()) =~= term_values(ts, 0, op));
    }
}

/// One more argument has been inserted.
pub proof fn lemma_args_sound_step(
    was: Graph,
    before: Graph,
    now: Graph,
    ts: Seq<Term>,
    n: nat,
    ids: Seq<usize>,
    id: usize,
)
    requires
        n < ts.len(),
        was.roots.len() <= before.roots.len(),
        forall|x: int| 0 <= x < ids.len() ==> (#[trigger] ids[x]) < before.roots.len(),
        args_sound(was, before, ts, n, ids),
        inserted_sound(before, now, ts[n as int], id),
    ensures
        args_sound(was, now, ts, n + 1, ids.push(id)),
{
    reveal(args_sound);
    reveal(inserted_sound);
    assert forall|val: Valuation, op: Interp| #[trigger] models(was, val, op) implies exists|
        wider: Valuation,
    | #[trigger]
        agree(val, wider, was.roots.len()) && models(now, wider, op) && values(
            wider,
            ids.push(id),
        ) == term_values(ts, n + 1, op) by {
        let w1 = choose|w1: Valuation| #[trigger]
            agree(val, w1, was.roots.len()) && models(before, w1, op) && values(w1, ids)
                == term_values(ts, n, op);
        let w2 = choose|w2: Valuation| #[trigger]
            agree(w1, w2, before.roots.len()) && models(now, w2, op) && w2(id) == term_value(
                ts[n as int],
                op,
            );
        assert(agree(val, w2, was.roots.len()));
        assert(values(w2, ids.push(id)) =~= values(w1, ids).push(w2(id))) by {
            assert forall|x: int| 0 <= x < ids.len() implies values(w2, ids.push(id))[x]
                == values(w1, ids)[x] by {
                assert(ids[x] < before.roots.len());
            }
        }
    }
}

/// The node of a term has been pushed on its inserted arguments.
pub proof fn lemma_node_sound(
    was: Graph,
    before: Graph,
    now: Graph,
    t: Term,
    ids: Seq<usize>,
    n: Node,
    id: usize,
)
    requires
        was.roots.len() <= before.roots.len(),
        args_sound(was, before, t.args@, t.args@.len(), ids),
        pushed_sound(before, now, id, n),
        n.head == unquoted(t.head@),
        n.args.len() == ids.len(),
        forall|x: int|
            0 <= x < ids.len() ==> (#[trigger] n.args[x]) < before.roots.len() && ids[x]
                < before.roots.len() && before.find(n.args[x]) == before.find(ids[x]),
    ensures
        inserted_sound(was, now, t, id),
{
    reveal(args_sound);
    reveal(pushed_sound);
    reveal(inserted_sound);
    assert forall|val: Valuation, op: Interp| #[trigger] models(was, val, op) implies exists|
        wider: Valuation,
    | #[trigger]
        agree(val, wider, was.roots.len()) && models(now, wider, op) && wider(id) == term_value(
            t,
            op,
        ) by {
        let w1 = choose|w1: Valuation| #[trigger]
            agree(val, w1, was.roots.len()) && models(before, w1, op) && values(w1, ids)
                == term_values(t.args@, t.args@.len(), op);
        let w2 = with_value(w1, id, node_value(w1, op, n));
        assert(agree(w1, w2, before.roots.len()) && models(now, w2, op));
        assert(agree(val, w2, was.roots.len()));
        lemma_values_equal(before, w1, n.args, ids);
    }
}

} // verus!
