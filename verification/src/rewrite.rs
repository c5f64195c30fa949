use vstd::prelude::*;
use crate::bindings::{covered, subst_of, substs_of, Subst};
use crate::graph::{absorbed, class_list, survivor, EGraph};
use crate::matcher::{
    agrees_on, all_matches, fits, hit_at, is_match, kids_match, lemma_hit, lemma_matches_agree,
    node_hit,
};
use crate::model::{merged, recanoned, Graph};
use crate::growth::{extends, lemma_extends_refl, lemma_extends_trans};
use crate::insert::pushed;
use crate::semantics::{
    agree, env_of, env_value, env_values, instance_sound, lemma_env_agree, lemma_env_values,
    lemma_root_value, lemma_values_equal, models, node_value, pushed_sound, rule_sound, sound_with,
    valid, values, with_value, Interp, Valuation,
};
use crate::node::{Enode, Id, Node};
use crate::tables::{bindings_get, Bindings};
use crate::term::{vars_upto, Pattern, Rule};

verus! {

/// The graph after the instance of `p` under `s` is pushed bottom-up, and
/// the class of the instance. A variable stands for the class bound to it.
pub open spec fn inst(g: Graph, p: Pattern, s: Subst) -> (Graph, usize)
    decreases p, 0nat,
{
    match p {
        Pattern::PatVar(v) => (g, s[v@]),
        Pattern::PatTerm(h, ps) => {
            let sub = inst_args(g, ps@, ps@.len(), s);
            pushed(sub.0, Node { head: h@, args: sub.1 })
        },
    }
}

/// The graph after the instances of the first `n` patterns are pushed in
/// turn, and their classes.
pub open spec fn inst_args(g: Graph, ps: Seq<Pattern>, n: nat, s: Subst) -> (Graph, Seq<usize>)
    decreases ps, n,
{
    if n == 0 || n > ps.len() {
        (g, Seq::empty())
    } else {
        let before = inst_args(g, ps, (n - 1) as nat, s);
        let last = inst(before.0, ps[n - 1], s);
        (last.0, before.1.push(last.1))
    }
}

/// Whether `s` binds every variable of `vars` to one of the first `len` ids.
pub open spec fn binds(s: Subst, vars: Set<Seq<char>>, len: nat) -> bool {
    forall|k: Seq<char>| #[trigger] vars.contains(k) ==> s.contains_key(k) && s[k] < len
}

/// The variables of the first patterns are among those of all.
pub proof fn lemma_vars_upto(ps: Seq<Pattern>, a: nat, b: nat)
    requires
        a <= b <= ps.len(),
    ensures
        vars_upto(ps, a).subset_of(vars_upto(ps, b)),
        a < b ==> ps[a as int].vars().subset_of(vars_upto(ps, b)),
    decreases b,
{
    if a < b {
        lemma_vars_upto(ps, a, (b - 1) as nat);
    }
}

/// Whether class `c` holds an instance of the pattern `p` under `s`, where
/// a variable stands for the class of the id bound to it.
pub open spec fn holds_instance(g: Graph, p: Pattern, s: Subst, c: usize) -> bool
    decreases p, 0nat,
{
    match p {
        Pattern::PatVar(v) => s.contains_key(v@) && s[v@] < g.roots.len() && g.find(s[v@])
            == g.find(c),
        Pattern::PatTerm(h, ps) => exists|i: int| #[trigger]
            g.has_node(g.find(c), i) && g.node_at(g.find(c), i).head == h@ && g.node_at(
                g.find(c),
                i,
            ).args.len() == ps@.len() && kids_hold(
                g,
                ps@,
                ps@.len(),
                s,
                g.node_at(g.find(c), i).args,
            ),
    }
}

/// Whether the first `n` classes of `args` hold instances of the first `n` patterns.
pub open spec fn kids_hold(g: Graph, ps: Seq<Pattern>, n: nat, s: Subst, args: Seq<usize>) -> bool
    decreases ps, n,
{
    if n == 0 || n > ps.len() || n > args.len() {
        n == 0
    } else {
        kids_hold(g, ps, (n - 1) as nat, s, args) && holds_instance(g, ps[n - 1], s, args[n - 1])
    }
}

/// Whether the right-hand side of the rule is held, in the same class,
/// wherever the left-hand side was held.
pub open spec fn applied(before: Graph, after: Graph, rule: Rule) -> bool {
    forall|s: Subst, c: usize|
        c < before.roots.len() && #[trigger] holds_instance(before, rule.lhs, s, c)
            ==> holds_instance(after, rule.rhs, s, c)
}

/// Whether `t` gives every variable of `vars` that `s` binds an id of the same class.
pub open spec fn equal_on(g: Graph, vars: Set<Seq<char>>, s: Subst, t: Subst) -> bool {
    forall|k: Seq<char>|
        vars.contains(k) && #[trigger] s.contains_key(k) ==> t.contains_key(k) && t[k]
            < g.roots.len() && g.find(t[k]) == g.find(s[k])
}

/// `s` with the representative in place of every id, on the variables `vars`.
pub open spec fn rooted_subst(g: Graph, s: Subst, vars: Set<Seq<char>>) -> Subst {
    Map::new(|k: Seq<char>| vars.contains(k) && s.contains_key(k), |k: Seq<char>| g.find(s[k]))
}

/// An instance binds every variable of the pattern, and stays an instance
/// under every substitution that is equal to the first on them.
pub proof fn lemma_instance_equal(g: Graph, p: Pattern, s: Subst, t: Subst, a: usize, b: usize)
    requires
        holds_instance(g, p, s, a),
        g.find(a) == g.find(b),
    ensures
        binds(s, p.vars(), g.roots.len()),
        equal_on(g, p.vars(), s, t) ==> holds_instance(g, p, t, b),
    decreases p, 0nat,
{
    match p {
        Pattern::PatVar(v) => {
            assert(p.vars() =~= set![v@]);
        },
        Pattern::PatTerm(h, ps) => {
            let k = g.find(a);
            let i = choose|i: int| #[trigger]
                g.has_node(k, i) && g.node_at(k, i).head == h@ && g.node_at(k, i).args.len()
                    == ps@.len() && kids_hold(g, ps@, ps@.len(), s, g.node_at(k, i).args);
            let args = g.node_at(k, i).args;
            lemma_kids_equal(g, ps@, ps@.len(), s, t, args, args);
            if equal_on(g, p.vars(), s, t) {
                assert(g.has_node(g.find(b), i));
            }
        },
    }
}

/// The same for the first `n` argument patterns, read through equivalent classes.
pub proof fn lemma_kids_equal(
    g: Graph,
    ps: Seq<Pattern>,
    n: nat,
    s: Subst,
    t: Subst,
    args: Seq<usize>,
    args2: Seq<usize>,
)
    requires
        kids_hold(g, ps, n, s, args),
        args.len() == args2.len(),
        forall|j: int| 0 <= j < args.len() ==> g.find(#[trigger] args[j]) == g.find(args2[j]),
    ensures
        binds(s, vars_upto(ps, n), g.roots.len()),
        equal_on(g, vars_upto(ps, n), s, t) ==> kids_hold(g, ps, n, t, args2),
    decreases ps, n,
{
    if n > 0 {
        lemma_kids_equal(g, ps, (n - 1) as nat, s, t, args, args2);
        assert(g.find(args[n - 1]) == g.find(args2[n - 1]));
        lemma_instance_equal(g, ps[n - 1], s, t, args[n - 1], args2[n - 1]);
        if equal_on(g, vars_upto(ps, n), s, t) {
            assert(equal_on(g, vars_upto(ps, (n - 1) as nat), s, t));
            assert(equal_on(g, ps[n - 1].vars(), s, t));
        }
    }
}

/// Whether a class holds an instance depends on the class alone, not on the id.
pub proof fn lemma_instance_moves(g: Graph, p: Pattern, s: Subst, a: usize, b: usize)
    requires
        holds_instance(g, p, s, a),
        g.find(a) == g.find(b),
    ensures
        holds_instance(g, p, s, b),
{
}

/// An instance stays an instance in every e-graph that extends the first.
pub proof fn lemma_instance_stays(
    g: Graph,
    marks: Seq<usize>,
    g2: Graph,
    p: Pattern,
    s: Subst,
    c: usize,
)
    requires
        g.inv(marks),
        extends(g, g2),
        c < g.roots.len(),
        holds_instance(g, p, s, c),
    ensures
        holds_instance(g2, p, s, c),
    decreases p, 0nat,
{
    match p {
        Pattern::PatVar(v) => {
            assert(g.same_class(s[v@], c));
            assert(g2.same_class(s[v@], c));
        },
        Pattern::PatTerm(h, ps) => {
            reveal(Graph::holds);
            let k = g.find(c);
            assert(g.roots[c as int] <= c);
            let i = choose|i: int| #[trigger]
                g.has_node(k, i) && g.node_at(k, i).head == h@ && g.node_at(k, i).args.len()
                    == ps@.len() && kids_hold(g, ps@, ps@.len(), s, g.node_at(k, i).args);
            let n = g.node_at(k, i);
            assert(g.node_ok(n));
            let k2 = g2.find(k);
            assert(g2.holds(k2, n));
            let i2 = choose|i2: int| #[trigger]
                g2.has_node(k2, i2) && g2.congruent(g2.node_at(k2, i2), n);
            let m = g2.node_at(k2, i2);
            assert(g.same_class(k, c));
            assert(g2.same_class(k, c));
            lemma_kids_stay(g, marks, g2, ps@, ps@.len(), s, n.args, m.args);
            assert(g2.has_node(g2.find(c), i2));
        },
    }
}

/// The same for the first `n` argument patterns, read through equivalent classes.
pub proof fn lemma_kids_stay(
    g: Graph,
    marks: Seq<usize>,
    g2: Graph,
    ps: Seq<Pattern>,
    n: nat,
    s: Subst,
    args: Seq<usize>,
    args2: Seq<usize>,
)
    requires
        g.inv(marks),
        extends(g, g2),
        forall|j: int| 0 <= j < args.len() ==> (#[trigger] args[j]) < g.roots.len(),
        args.len() == args2.len(),
        forall|j: int| 0 <= j < args.len() ==> g2.find(#[trigger] args2[j]) == g2.find(args[j]),
        kids_hold(g, ps, n, s, args),
    ensures
        kids_hold(g2, ps, n, s, args2),
    decreases ps, n,
{
    if n > 0 {
        lemma_kids_stay(g, marks, g2, ps, (n - 1) as nat, s, args, args2);
        let a = args[n - 1];
        let b = args2[n - 1];
        lemma_instance_stays(g, marks, g2, ps[n - 1], s, a);
        assert(g2.find(b) == g2.find(a));
        lemma_instance_moves(g2, ps[n - 1], s, a, b);
    }
}

/// An instance is a match once every id gives way to its representative.
pub proof fn lemma_instance_match(g: Graph, marks: Seq<usize>, p: Pattern, s: Subst, c: usize)
    requires
        g.ids_ok(marks),
        holds_instance(g, p, s, c),
    ensures
        is_match(g, p, rooted_subst(g, s, p.vars()), c),
        rooted_subst(g, s, p.vars()).dom() == p.vars(),
    decreases p, 0nat,
{
    let rs = rooted_subst(g, s, p.vars());
    lemma_instance_equal(g, p, s, s, c, c);
    assert(rs.dom() =~= p.vars()) by {
        assert forall|k: Seq<char>| p.vars().contains(k) implies s.contains_key(k) by {}
    }
    match p {
        Pattern::PatVar(v) => {
            assert(p.vars().contains(v@));
        },
        Pattern::PatTerm(h, ps) => {
            let k = g.find(c);
            let i = choose|i: int| #[trigger]
                g.has_node(k, i) && g.node_at(k, i).head == h@ && g.node_at(k, i).args.len()
                    == ps@.len() && kids_hold(g, ps@, ps@.len(), s, g.node_at(k, i).args);
            lemma_kids_instance_match(g, marks, ps@, ps@.len(), s, g.node_at(k, i).args, p.vars());
            assert(g.has_node(g.find(c), i));
        },
    }
}

/// The same for the first `n` argument patterns, for a substitution on more variables.
pub proof fn lemma_kids_instance_match(
    g: Graph,
    marks: Seq<usize>,
    ps: Seq<Pattern>,
    n: nat,
    s: Subst,
    args: Seq<usize>,
    vars: Set<Seq<char>>,
)
    requires
        g.ids_ok(marks),
        n <= ps.len(),
        vars_upto(ps, n).subset_of(vars),
        kids_hold(g, ps, n, s, args),
    ensures
        kids_match(g, ps, n, rooted_subst(g, s, vars), args),
    decreases ps, n,
{
    if n > 0 {
        lemma_kids_instance_match(g, marks, ps, (n - 1) as nat, s, args, vars);
        let p = ps[n - 1];
        lemma_instance_match(g, marks, p, s, args[n - 1]);
        lemma_matches_agree(
            g,
            p,
            rooted_subst(g, s, p.vars()),
            rooted_subst(g, s, vars),
            args[n - 1],
        );
        assert(agrees_on(p.vars(), rooted_subst(g, s, p.vars()), rooted_subst(g, s, vars)));
    }
}

/// A match is an instance, and binds every variable to an id of the graph.
pub proof fn lemma_match_instance(g: Graph, marks: Seq<usize>, p: Pattern, s: Subst, c: usize)
    requires
        g.ids_ok(marks),
        c < g.roots.len(),
        is_match(g, p, s, c),
    ensures
        holds_instance(g, p, s, c),
        binds(s, p.vars(), g.roots.len()),
    decreases p, 0nat,
{
    assert(g.roots[c as int] <= c);
    match p {
        Pattern::PatVar(v) => {
            assert(p.vars() =~= set![v@]);
        },
        Pattern::PatTerm(h, ps) => {
            lemma_hit(g, p, s, c);
            let k = g.find(c);
            let i = hit_at(g, k, h@, ps@, s);
            assert(node_hit(g, k, i, h@, ps@, s));
            assert(g.node_ok(g.node_at(k, i)));
            lemma_kids_match_instance(g, marks, ps@, ps@.len(), s, g.node_at(k, i).args);
            assert(g.has_node(g.find(c), i));
        },
    }
}

/// The same for the first `n` argument patterns.
pub proof fn lemma_kids_match_instance(
    g: Graph,
    marks: Seq<usize>,
    ps: Seq<Pattern>,
    n: nat,
    s: Subst,
    args: Seq<usize>,
)
    requires
        g.ids_ok(marks),
        forall|j: int| 0 <= j < args.len() ==> (#[trigger] args[j]) < g.roots.len(),
        kids_match(g, ps, n, s, args),
    ensures
        kids_hold(g, ps, n, s, args),
        binds(s, vars_upto(ps, n), g.roots.len()),
    decreases ps, n,
{
    if n > 0 {
        lemma_kids_match_instance(g, marks, ps, (n - 1) as nat, s, args);
        lemma_match_instance(g, marks, ps[n - 1], s, args[n - 1]);
    }
}

/// What holds of the first `n` classes of a list holds of them in a longer list.
pub proof fn lemma_kids_prefix(
    g: Graph,
    ps: Seq<Pattern>,
    n: nat,
    s: Subst,
    args: Seq<usize>,
    longer: Seq<usize>,
)
    requires
        n <= args.len() <= longer.len(),
        forall|j: int| 0 <= j < args.len() ==> longer[j] == args[j],
        kids_hold(g, ps, n, s, args),
    ensures
        kids_hold(g, ps, n, s, longer),
    decreases n,
{
    if n > 0 {
        lemma_kids_prefix(g, ps, (n - 1) as nat, s, args, longer);
    }
}

/// A member node whose arguments hold instances of the argument patterns
/// makes its class hold an instance of the operator pattern.
pub proof fn lemma_member_instance(g: Graph, p: Pattern, s: Subst, c: usize, i: int)
    requires
        p is PatTerm,
        g.has_node(g.find(c), i),
        g.node_at(g.find(c), i).head == p->PatTerm_0@,
        g.node_at(g.find(c), i).args.len() == p->PatTerm_1@.len(),
        kids_hold(g, p->PatTerm_1@, p->PatTerm_1@.len(), s, g.node_at(g.find(c), i).args),
    ensures
        holds_instance(g, p, s, c),
{
}

/// Whether every model of `before` grows into a model of `after` in which
/// the ids `ids` have the values of the first `n` patterns under `s`.
#[verifier::opaque]
pub open spec fn kids_sound(
    before: Graph,
    after: Graph,
    ps: Seq<Pattern>,
    n: nat,
    s: Subst,
    ids: Seq<usize>,
) -> bool {
    forall|val: Valuation, op: Interp| #[trigger]
        models(before, val, op) ==> exists|wider: Valuation| #[trigger]
            agree(val, wider, before.roots.len()) && models(after, wider, op) && values(
                wider,
                ids,
            ) == env_values(ps, n, env_of(val, s), op)
}

/// Whether every model of `before` in which all the rules are valid grows
/// into a model of `after`.
#[verifier::opaque]
pub open spec fn rules_sound(before: Graph, after: Graph, rs: Seq<Rule>) -> bool {
    forall|val: Valuation, op: Interp|
        #[trigger] models(before, val, op) && all_valid(rs, op) ==> exists|wider: Valuation| #[trigger]
            agree(val, wider, before.roots.len()) && models(after, wider, op)
}

/// Whether every rule is valid.
pub open spec fn all_valid(rs: Seq<Rule>, op: Interp) -> bool {
    forall|z: int| 0 <= z < rs.len() ==> valid(#[trigger] rs[z], op)
}

/// A variable has the value of the id bound to it.
pub proof fn lemma_var_sound(g: Graph, p: Pattern, s: Subst, id: usize)
    requires
        p is PatVar,
        id == s[p->PatVar_0@],
    ensures
        instance_sound(g, g, p, s, id),
{
    reveal(instance_sound);
    assert forall|val: Valuation, op: Interp| #[trigger] models(g, val, op) implies exists|
        wider: Valuation,
    | #[trigger]
        agree(val, wider, g.roots.len()) && models(g, wider, op) && wider(id) == env_value(
            p,
            env_of(val, s),
            op,
        ) by {
        assert(agree(val, val, g.roots.len()));
    }
}

/// Before any argument is instantiated, none has a value to show.
pub proof fn lemma_kids_sound_start(g: Graph, ps: Seq<Pattern>, s: Subst)
    ensures
        kids_sound(g, g, ps, 0, s, Seq::empty()),
{
    reveal(kids_sound);
    assert forall|val: Valuation, op: Interp| #[trigger] models(g, val, op) implies exists|
        wider: Valuation,
    | #[trigger]
        agree(val, wider, g.roots.len()) && models(g, wider, op) && values(
            wider,
            Seq::<usize>::empty(),
        ) == env_values(ps, 0, env_of(val, s), op) by {
        assert(agree(val, val, g.roots.len()));
        assert(values(val, Seq::<usize>::empty()) =~= env_values(ps, 0, env_of(val, s), op));
    }
}

/// One more argument has been instantiated.
pub proof fn lemma_kids_sound_step(
    was: Graph,
    before: Graph,
    now: Graph,
    ps: Seq<Pattern>,
    n: nat,
    s: Subst,
    ids: Seq<usize>,
    id: usize,
)
    requires
        n < ps.len(),
        was.roots.len() <= before.roots.len(),
        forall|x: int| 0 <= x < ids.len() ==> (#[trigger] ids[x]) < before.roots.len(),
        binds(s, ps[n as int].vars(), was.roots.len()),
        kids_sound(was, before, ps, n, s, ids),
        instance_sound(before, now, ps[n as int], s, id),
    ensures
        kids_sound(was, now, ps, n + 1, s, ids.push(id)),
{
    reveal(kids_sound);
    reveal(instance_sound);
    assert forall|val: Valuation, op: Interp| #[trigger] models(was, val, op) implies exists|
        wider: Valuation,
    | #[trigger]
        agree(val, wider, was.roots.len()) && models(now, wider, op) && values(
            wider,
            ids.push(id),
        ) == env_values(ps, n + 1, env_of(val, s), op) by {
        let w1 = choose|w1: Valuation| #[trigger]
            agree(val, w1, was.roots.len()) && models(before, w1, op) && values(w1, ids)
                == env_values(ps, n, env_of(val, s), op);
        let w2 = choose|w2: Valuation| #[trigger]
            agree(w1, w2, before.roots.len()) && models(now, w2, op) && w2(id) == env_value(
                ps[n as int],
                env_of(w1, s),
                op,
            );
        assert(agree(val, w2, was.roots.len()));
        assert forall|k: Seq<char>| #[trigger] ps[n as int].vars().contains(k) implies env_of(
            w1,
            s,
        )(k) == env_of(val, s)(k) by {
            assert(s[k] < was.roots.len());
        }
        lemma_env_agree(ps[n as int], env_of(w1, s), env_of(val, s), op);
        assert(values(w2, ids.push(id)) =~= values(w1, ids).push(w2(id))) by {
            assert forall|x: int| 0 <= x < ids.len() implies values(w2, ids.push(id))[x]
                == values(w1, ids)[x] by {
                assert(ids[x] < before.roots.len());
            }
        }
    }
}

/// The node of an operator pattern has been pushed on its instantiated arguments.
pub proof fn lemma_pattern_sound(
    was: Graph,
    before: Graph,
    now: Graph,
    p: Pattern,
    s: Subst,
    ids: Seq<usize>,
    n: Node,
    id: usize,
)
    requires
        p is PatTerm,
        was.roots.len() <= before.roots.len(),
        kids_sound(was, before, p->PatTerm_1@, p->PatTerm_1@.len(), s, ids),
        pushed_sound(before, now, id, n),
        n.head == p->PatTerm_0@,
        n.args.len() == ids.len(),
        forall|x: int|
            0 <= x < ids.len() ==> (#[trigger] n.args[x]) < before.roots.len() && ids[x]
                < before.roots.len() && before.find(n.args[x]) == before.find(ids[x]),
    ensures
        instance_sound(was, now, p, s, id),
{
    reveal(kids_sound);
    reveal(instance_sound);
    reveal(pushed_sound);
    let ps = p->PatTerm_1@;
    assert forall|val: Valuation, op: Interp| #[trigger] models(was, val, op) implies exists|
        wider: Valuation,
    | #[trigger]
        agree(val, wider, was.roots.len()) && models(now, wider, op) && wider(id) == env_value(
            p,
            env_of(val, s),
            op,
        ) by {
        let w1 = choose|w1: Valuation| #[trigger]
            agree(val, w1, was.roots.len()) && models(before, w1, op) && values(w1, ids)
                == env_values(ps, ps.len(), env_of(val, s), op);
        let w2 = with_value(w1, id, node_value(w1, op, n));
        assert(agree(w1, w2, before.roots.len()) && models(now, w2, op));
        assert(agree(val, w2, was.roots.len()));
        lemma_values_equal(before, w1, n.args, ids);
    }
}

/// In a model, a class that holds an instance of a pattern has the value
/// of the pattern under the substitution.
pub proof fn lemma_instance_value(
    g: Graph,
    marks: Seq<usize>,
    val: Valuation,
    op: Interp,
    p: Pattern,
    s: Subst,
    c: usize,
)
    requires
        g.ids_ok(marks),
        c < g.roots.len(),
        models(g, val, op),
        holds_instance(g, p, s, c),
    ensures
        env_value(p, env_of(val, s), op) == val(c),
    decreases p, 0nat,
{
    lemma_root_value(g, val, c);
    assert(g.roots[c as int] <= c);
    match p {
        Pattern::PatVar(v) => {
            lemma_root_value(g, val, s[v@]);
        },
        Pattern::PatTerm(h, ps) => {
            let k = g.find(c);
            let i = choose|i: int| #[trigger]
                g.has_node(k, i) && g.node_at(k, i).head == h@ && g.node_at(k, i).args.len()
                    == ps@.len() && kids_hold(g, ps@, ps@.len(), s, g.node_at(k, i).args);
            let n = g.node_at(k, i);
            assert(g.node_ok(n));
            lemma_kids_value(g, marks, val, op, ps@, ps@.len(), s, n.args);
            lemma_env_values(ps@, ps@.len(), env_of(val, s), op);
            assert(values(val, n.args) =~= env_values(ps@, ps@.len(), env_of(val, s), op));
            assert(node_value(val, op, n) == val(k));
        },
    }
}

/// The same for the first `n` argument patterns.
pub proof fn lemma_kids_value(
    g: Graph,
    marks: Seq<usize>,
    val: Valuation,
    op: Interp,
    ps: Seq<Pattern>,
    n: nat,
    s: Subst,
    args: Seq<usize>,
)
    requires
        g.ids_ok(marks),
        forall|j: int| 0 <= j < args.len() ==> (#[trigger] args[j]) < g.roots.len(),
        models(g, val, op),
        kids_hold(g, ps, n, s, args),
    ensures
        forall|j: int|
            0 <= j < n ==> val(#[trigger] args[j]) == env_value(ps[j], env_of(val, s), op),
    decreases ps, n,
{
    if n > 0 {
        lemma_kids_value(g, marks, val, op, ps, (n - 1) as nat, s, args);
        lemma_instance_value(g, marks, val, op, ps[n - 1], s, args[n - 1]);
    }
}

/// Nothing has been rewritten yet.
pub proof fn lemma_rule_sound_start(g: Graph, rule: Rule)
    ensures
        rule_sound(g, g, rule),
{
    reveal(rule_sound);
    assert forall|val: Valuation, op: Interp|
        #[trigger] models(g, val, op) && valid(rule, op) implies exists|wider: Valuation| #[trigger]
        agree(val, wider, g.roots.len()) && models(g, wider, op) by {
        assert(agree(val, val, g.roots.len()));
    }
}

/// One match has been rewritten: the instance of the right-hand side has
/// been pushed and merged with the class that holds the instance of the
/// left-hand side.
pub proof fn lemma_rule_sound_step(
    was: Graph,
    before: Graph,
    marks: Seq<usize>,
    mid: Graph,
    now: Graph,
    rule: Rule,
    s: Subst,
    id: usize,
    rid: usize,
)
    requires
        was.roots.len() <= before.roots.len(),
        before.ids_ok(marks),
        id < before.roots.len(),
        holds_instance(before, rule.lhs, s, id),
        rule_sound(was, before, rule),
        instance_sound(before, mid, rule.rhs, s, rid),
        sound_with(mid, now, id, rid),
    ensures
        rule_sound(was, now, rule),
{
    reveal(rule_sound);
    reveal(instance_sound);
    assert forall|val: Valuation, op: Interp|
        #[trigger] models(was, val, op) && valid(rule, op) implies exists|wider: Valuation| #[trigger]
        agree(val, wider, was.roots.len()) && models(now, wider, op) by {
        let w1 = choose|w1: Valuation| #[trigger]
            agree(val, w1, was.roots.len()) && models(before, w1, op);
        let w2 = choose|w2: Valuation| #[trigger]
            agree(w1, w2, before.roots.len()) && models(mid, w2, op) && w2(rid) == env_value(
                rule.rhs,
                env_of(w1, s),
                op,
            );
        lemma_instance_value(before, marks, w1, op, rule.lhs, s, id);
        assert(env_value(rule.lhs, env_of(w1, s), op) == env_value(rule.rhs, env_of(w1, s), op));
        assert(w2(id) == w1(id));
        assert(models(now, w2, op));
        assert(agree(val, w2, was.roots.len()));
    }
}

/// No rule has been applied yet.
pub proof fn lemma_rules_sound_start(g: Graph, rs: Seq<Rule>)
    ensures
        rules_sound(g, g, rs),
{
    reveal(rules_sound);
    assert forall|val: Valuation, op: Interp|
        #[trigger] models(g, val, op) && all_valid(rs, op) implies exists|wider: Valuation| #[trigger]
        agree(val, wider, g.roots.len()) && models(g, wider, op) by {
        assert(agree(val, val, g.roots.len()));
    }
}

/// One more rule has been applied.
pub proof fn lemma_rules_sound_step(was: Graph, before: Graph, now: Graph, rs: Seq<Rule>, i: int)
    requires
        0 <= i < rs.len(),
        was.roots.len() <= before.roots.len(),
        rules_sound(was, before, rs),
        rule_sound(before, now, rs[i]),
    ensures
        rules_sound(was, now, rs),
{
    reveal(rules_sound);
    reveal(rule_sound);
    assert forall|val: Valuation, op: Interp|
        #[trigger] models(was, val, op) && all_valid(rs, op) implies exists|wider: Valuation| #[trigger]
        agree(val, wider, was.roots.len()) && models(now, wider, op) by {
        let w1 = choose|w1: Valuation| #[trigger]
            agree(val, w1, was.roots.len()) && models(before, w1, op);
        assert(valid(rs[i], op));
        let w2 = choose|w2: Valuation| #[trigger]
            agree(w1, w2, before.roots.len()) && models(now, w2, op);
        assert(agree(val, w2, was.roots.len()));
    }
}

/// What a rewrite works on: the graph, the ids that wait for repair, and
/// the number of unions that have merged two classes.
pub struct Run {
    pub graph: Graph,
    pub dirty: Seq<usize>,
    pub count: nat,
}

/// The run after the union of `a` and `b`: unchanged where the two are in
/// one class; else the larger representative is absorbed, the members of
/// the merged class give way to their canonical forms, the survivor waits
/// for repair, and the union is counted.
pub open spec fn united(st: Run, a: usize, b: usize) -> Run {
    if st.graph.find(a) == st.graph.find(b) {
        st
    } else {
        Run {
            graph: recanoned(
                merged(st.graph, survivor(st.graph, a, b), absorbed(st.graph, a, b)),
                survivor(st.graph, a, b),
            ),
            dirty: st.dirty.push(survivor(st.graph, a, b)),
            count: st.count + 1,
        }
    }
}

/// The run after one match of class `id` is rewritten: the instance of
/// `rhs` under `s` is pushed and merged with the class. Nothing happens
/// where `s` leaves a variable of `rhs` without an id.
pub open spec fn applied_match(st: Run, rhs: Pattern, id: usize, s: Subst) -> Run {
    if binds(s, rhs.vars(), st.graph.roots.len()) {
        united(
            Run { graph: inst(st.graph, rhs, s).0, dirty: st.dirty, count: st.count },
            id,
            inst(st.graph, rhs, s).1,
        )
    } else {
        st
    }
}

/// The run after the first `n` of the matches `ms` of class `id` are rewritten in turn.
pub open spec fn applied_matches(st: Run, rhs: Pattern, id: usize, ms: Seq<Subst>, n: nat) -> Run
    decreases n,
{
    if n == 0 || n > ms.len() {
        st
    } else {
        applied_match(applied_matches(st, rhs, id, ms, (n - 1) as nat), rhs, id, ms[n - 1])
    }
}

/// The run after the rule is applied to the first `n` of the classes `ids`
/// in turn: each class is matched in the graph that the classes before it
/// have left, and all its matches are rewritten.
pub open spec fn applied_classes(st: Run, rule: Rule, ids: Seq<usize>, n: nat) -> Run
    decreases n,
{
    if n == 0 || n > ids.len() {
        st
    } else {
        let before = applied_classes(st, rule, ids, (n - 1) as nat);
        applied_matches(
            before,
            rule.rhs,
            ids[n - 1],
            all_matches(before.graph, rule.lhs, ids[n - 1]),
            all_matches(before.graph, rule.lhs, ids[n - 1]).len(),
        )
    }
}

/// The run after the rule is applied once to every class that the graph
/// has at the start, in ascending order of their representatives.
pub open spec fn rewritten(st: Run, rule: Rule) -> Run {
    applied_classes(
        st,
        rule,
        class_list(st.graph.roots, st.graph.roots.len()),
        class_list(st.graph.roots, st.graph.roots.len()).len(),
    )
}

/// The run after the first `n` rules are applied one after another.
pub open spec fn rewritten_all(st: Run, rs: Seq<Rule>, n: nat) -> Run
    decreases n,
{
    if n == 0 || n > rs.len() {
        st
    } else {
        rewritten(rewritten_all(st, rs, (n - 1) as nat), rs[n - 1])
    }
}

impl EGraph {
    /// Whether the bindings give every variable of the pattern an id of this e-graph.
    pub fn binds_all(&self, p: &Pattern, b: &Bindings) -> (r: bool)
        ensures
            r == binds(subst_of(*b), p.vars(), self@.roots.len()),
        decreases p,
    {
        match p {
            Pattern::PatVar(v) => {
                proof {
                    assert(p.vars().contains(v@));
                }
                match bindings_get(b, v) {
                    Some(id) => id < self.len(),
                    None => false,
                }
            },
            Pattern::PatTerm(_, ps) => {
                let mut j: usize = 0;
                while j < ps.len()
                    invariant
                        j <= ps@.len(),
                        p->PatTerm_1 == *ps,
                        p is PatTerm,
                        binds(subst_of(*b), vars_upto(ps@, j as nat), self@.roots.len()),
                    decreases ps@.len() - j,
                {
                    proof {
                        assert(decreases_to!(*p => p->PatTerm_1));
                        assert(decreases_to!(*ps => ps[j as int]));
                    }
                    if !self.binds_all(&ps[j], b) {
                        proof {
                            lemma_vars_upto(ps@, j as nat, ps@.len());
                        }
                        return false;
                    }
                    j += 1;
                }
                true
            },
        }
    }

    /// Pushes the instance of the pattern, whose variables are all bound.
    fn inst_rec(&mut self, p: &Pattern, b: &Bindings) -> (id: Id)
        requires
            old(self).wf(),
            binds(subst_of(*b), p.vars(), old(self)@.roots.len()),
        ensures
            final(self).wf(),
            (final(self)@, id) == inst(old(self)@, *p, subst_of(*b)),
            holds_instance(final(self)@, *p, subst_of(*b), id),
            instance_sound(old(self)@, final(self)@, *p, subst_of(*b), id),
            final(self).dirty() == old(self).dirty(),
            final(self).merges() == old(self).merges(),
            extends(old(self)@, final(self)@),
            id < final(self)@.roots.len(),
            old(self)@.roots.len() <= final(self)@.roots.len(),
        decreases p,
    {
        match p {
            Pattern::PatVar(v) => {
                proof {
                    assert(p.vars().contains(v@));
                    lemma_extends_refl(self@, self.dirty());
                    lemma_var_sound(self@, *p, subst_of(*b), subst_of(*b)[v@]);
                }
                bindings_get(b, v).unwrap()
            },
            Pattern::PatTerm(h, ps) => {
                let mut node = Enode::new(h.clone());
                let mut j: usize = 0;
                proof {
                    lemma_extends_refl(self@, self.dirty());
                    lemma_kids_sound_start(self@, ps@, subst_of(*b));
                }
                while j < ps.len()
                    invariant
                        j <= ps@.len(),
                        p->PatTerm_1 == *ps,
                        p->PatTerm_0 == *h,
                        p is PatTerm,
                        self.wf(),
                        old(self).wf(),
                        kids_sound(old(self)@, self@, ps@, j as nat, subst_of(*b), node.args@),
                        self.dirty() == old(self).dirty(),
                        self.merges() == old(self).merges(),
                        extends(old(self)@, self@),
                        old(self)@.roots.len() <= self@.roots.len(),
                        binds(subst_of(*b), p.vars(), old(self)@.roots.len()),
                        node.head@ == h@,
                        node.args@.len() == j,
                        (self@, node.args@) == inst_args(old(self)@, ps@, j as nat, subst_of(*b)),
                        kids_hold(self@, ps@, j as nat, subst_of(*b), node.args@),
                        forall|x: int|
                            0 <= x < j ==> (#[trigger] node.args@[x]) < self@.roots.len(),
                    decreases ps@.len() - j,
                {
                    let ghost before = self@;
                    let ghost marks = self.dirty();
                    proof {
                        assert(decreases_to!(*p => p->PatTerm_1));
                        assert(decreases_to!(*ps => ps[j as int]));
                        lemma_vars_upto(ps@, j as nat, ps@.len());
                    }
                    let ghost args0 = node.args@;
                    let id = self.inst_rec(&ps[j], b);
                    proof {
                        lemma_extends_trans(old(self)@, before, self@, old(self).dirty(), marks);
                        lemma_kids_stay(
                            before,
                            marks,
                            self@,
                            ps@,
                            j as nat,
                            subst_of(*b),
                            args0,
                            args0,
                        );
                    }
                    node.args.push(id);
                    proof {
                        lemma_kids_prefix(self@, ps@, j as nat, subst_of(*b), args0, node.args@);
                        lemma_kids_sound_step(
                            old(self)@,
                            before,
                            self@,
                            ps@,
                            j as nat,
                            subst_of(*b),
                            args0,
                            id,
                        );
                    }
                    j += 1;
                }
                assert(self@.node_ok(node@)) by {
                    assert forall|x: int| 0 <= x < node@.args.len() implies (#[trigger] node@.args[x])
                        < self@.roots.len() by {
                        assert(node.args@[x] < self@.roots.len());
                    }
                }
                let ghost before = self@;
                let ghost marks = self.dirty();
                let ghost args0 = node.args@;
                let id = self.push_eclass(&mut node);
                proof {
                    lemma_extends_trans(old(self)@, before, self@, old(self).dirty(), marks);
                    let now = self@;
                    let x = choose|x: int| #[trigger] now.has_node(id, x) && now.node_at(id, x)
                        == node@;
                    assert forall|y: int| 0 <= y < args0.len() implies now.find(
                        #[trigger] node@.args[y],
                    ) == now.find(args0[y]) by {
                        assert(before.roots[args0[y] as int] <= args0[y]);
                        assert(before.same_class(node@.args[y], args0[y]));
                        assert(now.same_class(node@.args[y], args0[y]));
                    }
                    lemma_kids_stay(
                        before,
                        marks,
                        now,
                        ps@,
                        ps@.len(),
                        subst_of(*b),
                        args0,
                        node@.args,
                    );
                    lemma_member_instance(now, *p, subst_of(*b), id, x);
                    assert forall|y: int| 0 <= y < args0.len() implies (#[trigger] node@.args[y])
                        < before.roots.len() && args0[y] < before.roots.len() && before.find(
                        node@.args[y],
                    ) == before.find(args0[y]) by {
                        assert(before.roots[args0[y] as int] <= args0[y]);
                    }
                    lemma_pattern_sound(
                        old(self)@,
                        before,
                        now,
                        *p,
                        subst_of(*b),
                        args0,
                        node@,
                        id,
                    );
                }
                id
            },
        }
    }

    /// Pushes the instance of the pattern under the bindings bottom-up and
    /// returns its class; `None`, and nothing is changed, where the bindings
    /// leave a variable of the pattern without an id of this e-graph.
    pub fn instantiate(&mut self, p: &Pattern, b: &Bindings) -> (r: Option<Id>)
        requires
            old(self).wf(),
        ensures
            final(self).wf(),
            final(self).dirty() == old(self).dirty(),
            final(self).merges() == old(self).merges(),
            extends(old(self)@, final(self)@),
            old(self)@.roots.len() <= final(self)@.roots.len(),
            binds(subst_of(*b), p.vars(), old(self)@.roots.len()) ==> r == Some(
                inst(old(self)@, *p, subst_of(*b)).1,
            ) && final(self)@ == inst(old(self)@, *p, subst_of(*b)).0
                && r.unwrap() < final(self)@.roots.len()
                && holds_instance(final(self)@, *p, subst_of(*b), r.unwrap()) && instance_sound(
                old(self)@,
                final(self)@,
                *p,
                subst_of(*b),
                r.unwrap(),
            ),
            !binds(subst_of(*b), p.vars(), old(self)@.roots.len()) ==> r.is_none()
                && final(self).same(old(self)),
    {
        if !self.binds_all(p, b) {
            proof {
                lemma_extends_refl(self@, self.dirty());
            }
            return None;
        }
        Some(self.inst_rec(p, b))
    }

    /// Applies the rule once to every class that the e-graph has at the start,
    /// in ascending order.
    fn rewrite_with(&mut self, r: &Rule, Ghost(base): Ghost<nat>) -> (edits: usize)
        requires
            old(self).wf(),
        ensures
            final(self).wf(),
            (Run { graph: final(self)@, dirty: final(self).dirty(), count: (base + edits) as nat })
                == rewritten((Run { graph: old(self)@, dirty: old(self).dirty(), count: base }), *r),
            extends(old(self)@, final(self)@),
            old(self)@.roots.len() <= final(self)@.roots.len(),
            edits == final(self).merges() - old(self).merges(),
            r.wf() ==> applied(old(self)@, final(self)@, *r),
            rule_sound(old(self)@, final(self)@, *r),
    {
        let ids = self.class_ids();
        let mut edits: usize = 0;
        let mut x: usize = 0;
        let ghost st0 = Run { graph: self@, dirty: self.dirty(), count: base };
        proof {
            lemma_extends_refl(self@, self.dirty());
            lemma_rule_sound_start(self@, *r);
        }
        while x < ids.len()
            invariant
                x <= ids@.len(),
                self.wf(),
                old(self).wf(),
                (Run { graph: self@, dirty: self.dirty(), count: (base + edits) as nat })
                    == applied_classes(st0, *r, ids@, x as nat),
                rule_sound(old(self)@, self@, *r),
                extends(old(self)@, self@),
                old(self)@.roots.len() <= self@.roots.len(),
                edits == self.merges() - old(self).merges(),
                forall|z: int| 0 <= z < ids@.len() ==> (#[trigger] ids@[z]) < old(self)@.roots.len(),
                r.wf() ==> forall|s: Subst, z: int|
                    0 <= z < x && #[trigger] holds_instance(old(self)@, r.lhs, s, ids@[z])
                        ==> holds_instance(self@, r.rhs, s, ids@[z]),
            decreases ids@.len() - x,
        {
            let id = ids[x];
            let found = self.match_pattern(id, &r.lhs);
            let ghost start = self@;
            let ghost start_marks = self.dirty();
            let ghost run0 = Run { graph: self@, dirty: self.dirty(), count: (base + edits) as nat };
            let ghost ms = substs_of(found@);
            let mut y: usize = 0;
            proof {
                lemma_extends_refl(start, start_marks);
            }
            while y < found.len()
                invariant
                    y <= found@.len(),
                    x < ids@.len(),
                    self.wf(),
                    old(self).wf(),
                    ms == substs_of(found@),
                    (Run { graph: self@, dirty: self.dirty(), count: (base + edits) as nat })
                        == applied_matches(run0, r.rhs, id, ms, y as nat),
                    rule_sound(old(self)@, self@, *r),
                    start.inv(start_marks),
                    extends(old(self)@, self@),
                    extends(start, self@),
                    old(self)@.roots.len() <= start.roots.len() <= self@.roots.len(),
                    edits == self.merges() - old(self).merges(),
                    id < old(self)@.roots.len(),
                    forall|z: int| 0 <= z < found@.len() ==> fits(start, r.lhs, #[trigger] found@[z], id),
                    r.wf() ==> forall|z: int|
                        0 <= z < y ==> holds_instance(
                            self@,
                            r.rhs,
                            subst_of(#[trigger] found@[z]),
                            id,
                        ),
                    forall|z: int| 0 <= z < ids@.len() ==> (#[trigger] ids@[z]) < old(self)@.roots.len(),
                    r.wf() ==> forall|s: Subst, z: int|
                        0 <= z < x && #[trigger] holds_instance(old(self)@, r.lhs, s, ids@[z])
                            ==> holds_instance(self@, r.rhs, s, ids@[z]),
                decreases found@.len() - y,
            {
                let ghost before = self@;
                let ghost marks = self.dirty();
                let ghost sub = subst_of(found@[y as int]);
                proof {
                    assert(ms[y as int] == sub);
                    assert(fits(start, r.lhs, found@[y as int], id));
                    lemma_match_instance(start, start_marks, r.lhs, sub, id);
                    lemma_instance_stays(start, start_marks, before, r.lhs, sub, id);
                }
                let made = self.instantiate(&r.rhs, &found[y]);
                proof {
                    lemma_extends_trans(old(self)@, before, self@, old(self).dirty(), marks);
                    lemma_extends_trans(start, before, self@, start_marks, marks);
                }
                let ghost mid = self@;
                let ghost marks2 = self.dirty();
                proof {
                    lemma_extends_refl(mid, marks2);
                }
                if let Some(rid) = made {
                    let merged = self.union(id, rid);
                    proof {
                        lemma_extends_trans(old(self)@, mid, self@, old(self).dirty(), marks2);
                        lemma_extends_trans(start, mid, self@, start_marks, marks2);
                        lemma_rule_sound_step(
                            old(self)@,
                            before,
                            marks,
                            mid,
                            self@,
                            *r,
                            sub,
                            id,
                            rid,
                        );
                    }
                    if merged.is_some() {
                        let n = self.len();
                        proof {
                            self.lemma_sets();
                            old(self).lemma_sets();
                            assert(self.merges() <= n);
                            assert(old(self).merges() >= 0);
                        }
                        edits += 1;
                    }
                }
                proof {
                    let now = self@;
                    lemma_extends_trans(before, mid, now, marks, marks2);
                    if r.wf() {
                        // the instance of this match is held by the class
                        assert(binds(sub, r.rhs.vars(), before.roots.len()));
                        let rid = made.unwrap();
                        assert(holds_instance(mid, r.rhs, sub, rid));
                        lemma_instance_stays(mid, marks2, now, r.rhs, sub, rid);
                        lemma_instance_moves(now, r.rhs, sub, rid, id);
                        // and so are those of the matches before it
                        assert forall|z: int| 0 <= z < y + 1 implies holds_instance(
                            now,
                            r.rhs,
                            subst_of(#[trigger] found@[z]),
                            id,
                        ) by {
                            if z < y {
                                lemma_instance_stays(
                                    before,
                                    marks,
                                    now,
                                    r.rhs,
                                    subst_of(found@[z]),
                                    id,
                                );
                            }
                        }
                        assert forall|s: Subst, z: int|
                            0 <= z < x && #[trigger] holds_instance(
                                old(self)@,
                                r.lhs,
                                s,
                                ids@[z],
                            ) implies holds_instance(now, r.rhs, s, ids@[z]) by {
                            lemma_instance_stays(before, marks, now, r.rhs, s, ids@[z]);
                        }
                    }
                }
                y += 1;
            }
            proof {
                let now = self@;
                if r.wf() {
                    assert forall|s: Subst, z: int|
                        0 <= z < x + 1 && #[trigger] holds_instance(
                            old(self)@,
                            r.lhs,
                            s,
                            ids@[z],
                        ) implies holds_instance(now, r.rhs, s, ids@[z]) by {
                        if z == x {
                            // what was an instance is a match at the start of the round
                            lemma_instance_stays(
                                old(self)@,
                                old(self).dirty(),
                                start,
                                r.lhs,
                                s,
                                id,
                            );
                            lemma_instance_match(start, start_marks, r.lhs, s, id);
                            let rs = rooted_subst(start, s, r.lhs.vars());
                            assert(covered(found@, rs));
                            let w = choose|w: int|
                                0 <= w < found@.len() && subst_of(#[trigger] found@[w]) == rs;
                            assert(holds_instance(now, r.rhs, rs, id));
                            // and the substitution differs from its match by representatives
                            lemma_instance_equal(start, r.lhs, s, s, id, id);
                            assert(binds(s, r.lhs.vars(), start.roots.len()));
                            assert forall|k: Seq<char>|
                                r.rhs.vars().contains(k) && #[trigger] rs.contains_key(
                                    k,
                                ) implies s.contains_key(k) && s[k] < now.roots.len() && now.find(
                                s[k],
                            ) == now.find(rs[k]) by {
                                assert(r.lhs.vars().contains(k));
                                assert(start.roots[s[k] as int] <= s[k]);
                                assert(start.same_class(s[k], start.find(s[k])));
                                assert(now.same_class(s[k], start.find(s[k])));
                            }
                            lemma_instance_equal(now, r.rhs, rs, s, id, id);
                        }
                    }
                }
            }
            x += 1;
        }
        proof {
            let now = self@;
            let was = old(self)@;
            if r.wf() {
                assert forall|s: Subst, c: usize|
                    c < was.roots.len() && #[trigger] holds_instance(
                        was,
                        r.lhs,
                        s,
                        c,
                    ) implies holds_instance(now, r.rhs, s, c) by {
                    let k = was.find(c);
                    assert(was.roots[c as int] <= c);
                    assert(was.is_root(k));
                    assert(ids@.contains(k));
                    let z = choose|z: int| 0 <= z < ids@.len() && ids@[z] == k;
                    lemma_instance_moves(was, r.lhs, s, c, k);
                    assert(holds_instance(now, r.rhs, s, ids@[z]));
                    assert(was.same_class(k, c));
                    assert(now.same_class(k, c));
                    lemma_instance_moves(now, r.rhs, s, k, c);
                }
            }
        }
        edits
    }

    /// Applies the rule once to every class: for every match of the
    /// left-hand side, the instance of the right-hand side is pushed and
    /// merged with the class. Returns the number of unions that merged two
    /// classes. Nothing that was represented is lost; the right-hand side is
    /// held wherever the left-hand side was; and every model of the old
    /// e-graph in which the rule is valid grows into a model of the new one.
    pub fn rewrite_lhs_to_rhs(&mut self, r: Rule) -> (edits: usize)
        requires
            old(self).wf(),
        ensures
            final(self).wf(),
            extends(old(self)@, final(self)@),
            old(self)@.roots.len() <= final(self)@.roots.len(),
            edits == final(self).merges() - old(self).merges(),
            (Run { graph: final(self)@, dirty: final(self).dirty(), count: edits as nat })
                == rewritten((Run { graph: old(self)@, dirty: old(self).dirty(), count: 0 }), r),
            r.wf() ==> applied(old(self)@, final(self)@, r),
            rule_sound(old(self)@, final(self)@, r),
    {
        self.rewrite_with(&r, Ghost(0))
    }

    /// Applies the rules in their order, without a rebuild between them.
    /// Returns the number of unions that merged two classes.
    pub fn rewrite_ruleset(&mut self, rs: Vec<Rule>) -> (edits: usize)
        requires
            old(self).wf(),
        ensures
            final(self).wf(),
            extends(old(self)@, final(self)@),
            old(self)@.roots.len() <= final(self)@.roots.len(),
            edits == final(self).merges() - old(self).merges(),
            forall|z: int|
                0 <= z < rs@.len() && (#[trigger] rs@[z]).wf() ==> applied(
                    old(self)@,
                    final(self)@,
                    rs@[z],
                ),
            rules_sound(old(self)@, final(self)@, rs@),
            (Run { graph: final(self)@, dirty: final(self).dirty(), count: edits as nat })
                == rewritten_all(
                (Run { graph: old(self)@, dirty: old(self).dirty(), count: 0 }),
                rs@,
                rs@.len(),
            ),
    {
        let mut edits: usize = 0;
        let mut i: usize = 0;
        let ghost st0 = Run { graph: self@, dirty: self.dirty(), count: 0 };
        proof {
            lemma_extends_refl(self@, self.dirty());
            lemma_rules_sound_start(self@, rs@);
        }
        while i < rs.len()
            invariant
                i <= rs@.len(),
                self.wf(),
                old(self).wf(),
                extends(old(self)@, self@),
                old(self)@.roots.len() <= self@.roots.len(),
                edits == self.merges() - old(self).merges(),
                (Run { graph: self@, dirty: self.dirty(), count: edits as nat }) == rewritten_all(
                    st0,
                    rs@,
                    i as nat,
                ),
                rules_sound(old(self)@, self@, rs@),
                forall|z: int|
                    0 <= z < i && (#[trigger] rs@[z]).wf() ==> applied(old(self)@, self@, rs@[z]),
            decreases rs@.len() - i,
        {
            let ghost before = self@;
            let ghost marks = self.dirty();
            let more = self.rewrite_with(&rs[i], Ghost(edits as nat));
            let n = self.len();
            proof {
                lemma_extends_trans(old(self)@, before, self@, old(self).dirty(), marks);
                self.lemma_sets();
                old(self).lemma_sets();
                assert(self.merges() <= n);
                assert(old(self).merges() >= 0);
                let was = old(self)@;
                let now = self@;
                lemma_rules_sound_step(was, before, now, rs@, i as int);
                assert forall|z: int| 0 <= z < i + 1 && (#[trigger] rs@[z]).wf() implies applied(
                    was,
                    now,
                    rs@[z],
                ) by {
                    let rule = rs@[z];
                    assert forall|s: Subst, c: usize|
                        c < was.roots.len() && #[trigger] holds_instance(
                            was,
                            rule.lhs,
                            s,
                            c,
                        ) implies holds_instance(now, rule.rhs, s, c) by {
                        if z < i {
                            assert(applied(was, before, rule));
                            assert(holds_instance(before, rule.rhs, s, c));
                            lemma_instance_stays(before, marks, now, rule.rhs, s, c);
                        } else {
                            lemma_instance_stays(was, old(self).dirty(), before, rule.lhs, s, c);
                            assert(applied(before, now, rule));
                        }
                    }
                }
            }
            edits = edits + more;
            i += 1;
        }
        edits
    }
}

} // verus!
