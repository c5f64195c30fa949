use vstd::prelude::*;
use crate::bindings::{
    all_consistent, bmap, consistent, covered, joined, lemma_joined, lemma_put, made_from, merge,
    pair_ok, pair_union, product, products, subst_of, substs_of, Subst,
};
use crate::graph::EGraph;
use crate::model::Graph;
use crate::node::{nodes_view, Id};
use crate::tables::{binding_entries, bindings_insert, bindings_new, distinct_keys, Bindings};
use crate::term::{vars_upto, Pattern};

verus! {

/// Whether class `c` holds an instance of the pattern `p` under the
/// substitution `s`: a variable stands for the representative of the class,
/// and an operator pattern needs a member node with that operator whose
/// arguments hold instances of the argument patterns.
pub open spec fn is_match(g: Graph, p: Pattern, s: Subst, c: usize) -> bool
    decreases p, 0nat,
{
    match p {
        Pattern::PatVar(v) => s.contains_key(v@) && s[v@] == g.find(c),
        Pattern::PatTerm(h, ps) => exists|i: int| #[trigger]
            g.has_node(g.find(c), i) && g.node_at(g.find(c), i).head == h@ && g.node_at(
                g.find(c),
                i,
            ).args.len() == ps@.len() && kids_match(
                g,
                ps@,
                ps@.len(),
                s,
                g.node_at(g.find(c), i).args,
            ),
    }
}

/// Whether the member of class `k` at place `i` has the operator `h` and
/// arguments that hold instances of the patterns `ps`.
pub open spec fn node_hit(
    g: Graph,
    k: usize,
    i: int,
    h: Seq<char>,
    ps: Seq<Pattern>,
    s: Subst,
) -> bool {
    &&& g.has_node(k, i)
    &&& g.node_at(k, i).head == h
    &&& g.node_at(k, i).args.len() == ps.len()
    &&& kids_match(g, ps, ps.len(), s, g.node_at(k, i).args)
}

/// A place in class `k` whose member is such a node, if there is one.
pub open spec fn hit_at(g: Graph, k: usize, h: Seq<char>, ps: Seq<Pattern>, s: Subst) -> int {
    choose|i: int| #[trigger]
        g.has_node(k, i) && g.node_at(k, i).head == h && g.node_at(k, i).args.len() == ps.len()
            && kids_match(g, ps, ps.len(), s, g.node_at(k, i).args)
}

/// A match of an operator pattern has a member node to show.
pub proof fn lemma_hit(g: Graph, p: Pattern, s: Subst, c: usize)
    requires
        p is PatTerm,
        is_match(g, p, s, c),
    ensures
        node_hit(
            g,
            g.find(c),
            hit_at(g, g.find(c), p->PatTerm_0@, p->PatTerm_1@, s),
            p->PatTerm_0@,
            p->PatTerm_1@,
            s,
        ),
{
}

/// Whether the first `n` classes of `args` hold instances of the first `n` patterns.
pub open spec fn kids_match(g: Graph, ps: Seq<Pattern>, n: nat, s: Subst, args: Seq<usize>) -> bool
    decreases ps, n,
{
    if n == 0 || n > ps.len() || n > args.len() {
        n == 0
    } else {
        kids_match(g, ps, (n - 1) as nat, s, args) && is_match(g, ps[n - 1], s, args[n - 1])
    }
}

/// Whether `t` gives every variable of `vars` that `s` binds the class that `s` gives it.
pub open spec fn agrees_on(vars: Set<Seq<char>>, s: Subst, t: Subst) -> bool {
    forall|k: Seq<char>|
        vars.contains(k) && #[trigger] s.contains_key(k) ==> t.contains_key(k) && t[k] == s[k]
}

/// A match binds every variable of the pattern, and depends on nothing else.
pub proof fn lemma_matches_agree(g: Graph, p: Pattern, s: Subst, t: Subst, c: usize)
    requires
        is_match(g, p, s, c),
    ensures
        p.vars().subset_of(s.dom()),
        agrees_on(p.vars(), s, t) ==> is_match(g, p, t, c),
    decreases p, 0nat,
{
    match p {
        Pattern::PatVar(v) => {
            assert(p.vars() =~= set![v@]);
        },
        Pattern::PatTerm(h, ps) => {
            lemma_hit(g, p, s, c);
            let i = hit_at(g, g.find(c), h@, ps@, s);
            let args = g.node_at(g.find(c), i).args;
            lemma_kids_agree(g, ps@, ps@.len(), s, t, args);
            if agrees_on(p.vars(), s, t) {
                assert(g.has_node(g.find(c), i));
                assert(node_hit(g, g.find(c), i, h@, ps@, t));
            }
        },
    }
}

/// The same for the first `n` argument patterns.
pub proof fn lemma_kids_agree(
    g: Graph,
    ps: Seq<Pattern>,
    n: nat,
    s: Subst,
    t: Subst,
    args: Seq<usize>,
)
    requires
        kids_match(g, ps, n, s, args),
    ensures
        vars_upto(ps, n).subset_of(s.dom()),
        agrees_on(vars_upto(ps, n), s, t) ==> kids_match(g, ps, n, t, args),
    decreases ps, n,
{
    if n > 0 {
        lemma_kids_agree(g, ps, (n - 1) as nat, s, t, args);
        lemma_matches_agree(g, ps[n - 1], s, t, args[n - 1]);
        if agrees_on(vars_upto(ps, n), s, t) {
            assert(agrees_on(vars_upto(ps, (n - 1) as nat), s, t));
            assert(agrees_on(ps[n - 1].vars(), s, t));
        }
    }
}

/// All matches of the pattern `p` in the class of `c`, in the order in
/// which they are found: a variable has the one match that binds it to the
/// representative; an operator pattern has the matches of its member nodes,
/// one node after the other.
pub open spec fn all_matches(g: Graph, p: Pattern, c: usize) -> Seq<Subst>
    decreases p, 0nat, 0nat,
{
    match p {
        Pattern::PatVar(v) => seq![Map::<Seq<char>, usize>::empty().insert(v@, g.find(c))],
        Pattern::PatTerm(h, ps) => class_matches(
            g,
            g.find(c),
            h@,
            ps@,
            g.classes[g.find(c)].nodes.len(),
        ),
    }
}

/// The matches of the operator `h` applied to the patterns `ps` in the first
/// `m` members of class `k`.
pub open spec fn class_matches(
    g: Graph,
    k: usize,
    h: Seq<char>,
    ps: Seq<Pattern>,
    m: nat,
) -> Seq<Subst>
    decreases ps, ps.len() + 1, m,
{
    if m == 0 || m > g.classes[k].nodes.len() {
        Seq::empty()
    } else {
        let before = class_matches(g, k, h, ps, (m - 1) as nat);
        let n = g.classes[k].nodes[m - 1];
        if n.head == h && n.args.len() == ps.len() {
            before + kid_matches(g, ps, ps.len(), n.args)
        } else {
            before
        }
    }
}

/// The matches of the first `n` patterns in the first `n` classes of
/// `args`: every consistent union of a match of the patterns before the
/// last with a match of the last.
pub open spec fn kid_matches(g: Graph, ps: Seq<Pattern>, n: nat, args: Seq<usize>) -> Seq<Subst>
    decreases ps, n, 0nat,
{
    if n == 0 {
        seq![Map::<Seq<char>, usize>::empty()]
    } else if n > ps.len() || n > args.len() {
        Seq::empty()
    } else {
        let before = kid_matches(g, ps, (n - 1) as nat, args);
        products(before, all_matches(g, ps[n - 1], args[n - 1]), before.len())
    }
}

/// Whether the bindings `b` are a match of `p` in class `c` that binds the
/// variables of `p` and no others.
pub open spec fn fits(g: Graph, p: Pattern, b: Bindings, c: usize) -> bool {
    &&& distinct_keys(binding_entries(b))
    &&& subst_of(b).dom() == p.vars()
    &&& is_match(g, p, subst_of(b), c)
}

/// Whether the bindings `b` are a match of the first `n` patterns in the
/// first `n` classes of `args` that binds their variables and no others.
pub open spec fn kids_fit(g: Graph, ps: Seq<Pattern>, n: nat, b: Bindings, args: Seq<usize>) -> bool {
    &&& distinct_keys(binding_entries(b))
    &&& subst_of(b).dom() == vars_upto(ps, n)
    &&& kids_match(g, ps, n, subst_of(b), args)
}

/// The union of a match of the first `n` argument patterns with a match of
/// the next one is a match of the first `n + 1`.
pub proof fn lemma_step_sound(
    g: Graph,
    ps: Seq<Pattern>,
    n: nat,
    args: Seq<usize>,
    a: Subst,
    b: Subst,
)
    requires
        n < ps.len(),
        n < args.len(),
        a.dom() == vars_upto(ps, n),
        kids_match(g, ps, n, a, args),
        b.dom() == ps[n as int].vars(),
        is_match(g, ps[n as int], b, args[n as int]),
        consistent(a, b),
    ensures
        a.union_prefer_right(b).dom() == vars_upto(ps, n + 1),
        kids_match(g, ps, n + 1, a.union_prefer_right(b), args),
{
    let m = a.union_prefer_right(b);
    assert(m.dom() =~= vars_upto(ps, n + 1));
    assert(agrees_on(vars_upto(ps, n), a, m));
    assert(agrees_on(ps[n as int].vars(), b, m));
    lemma_kids_agree(g, ps, n, a, m, args);
    lemma_matches_agree(g, ps[n as int], b, m, args[n as int]);
}

/// A match of the first `n + 1` argument patterns is the union of a match
/// of the first `n` with a match of the next one.
proof fn lemma_step_complete(g: Graph, ps: Seq<Pattern>, n: nat, args: Seq<usize>, s: Subst)
    requires
        n < ps.len(),
        n < args.len(),
        s.dom() == vars_upto(ps, n + 1),
        kids_match(g, ps, n + 1, s, args),
    ensures
        s.restrict(vars_upto(ps, n)).dom() == vars_upto(ps, n),
        kids_match(g, ps, n, s.restrict(vars_upto(ps, n)), args),
        s.restrict(ps[n as int].vars()).dom() == ps[n as int].vars(),
        is_match(g, ps[n as int], s.restrict(ps[n as int].vars()), args[n as int]),
        consistent(s.restrict(vars_upto(ps, n)), s.restrict(ps[n as int].vars())),
        s.restrict(vars_upto(ps, n)).union_prefer_right(s.restrict(ps[n as int].vars())) == s,
{
    let va = vars_upto(ps, n);
    let vb = ps[n as int].vars();
    let a = s.restrict(va);
    let b = s.restrict(vb);
    assert(vars_upto(ps, n + 1) =~= va.union(vb));
    assert(a.dom() =~= va);
    assert(b.dom() =~= vb);
    assert(agrees_on(va, s, a));
    assert(agrees_on(vb, s, b));
    lemma_kids_agree(g, ps, n, s, a, args);
    lemma_matches_agree(g, ps[n as int], s, b, args[n as int]);
    assert(a.union_prefer_right(b) =~= s);
}

impl EGraph {
    /// The union of a list of bindings, where they agree pairwise; else `None`.
    pub fn merge_consistent(dicts: &Vec<Bindings>) -> (r: Option<Bindings>)
        ensures
            r.is_some() == all_consistent(substs_of(dicts@), dicts@.len() as int),
            match r {
                Some(m) => subst_of(m) == joined(substs_of(dicts@), dicts@.len() as int)
                    && distinct_keys(binding_entries(m)),
                None => true,
            },
    {
        let ghost ds = substs_of(dicts@);
        let mut acc = bindings_new();
        proof {
            assert(subst_of(acc) =~= Map::<Seq<char>, usize>::empty());
        }
        let mut i: usize = 0;
        while i < dicts.len()
            invariant
                i <= dicts@.len(),
                ds == substs_of(dicts@),
                all_consistent(ds, i as int),
                subst_of(acc) == joined(ds, i as int),
                distinct_keys(binding_entries(acc)),
            decreases dicts@.len() - i,
        {
            let next = merge(&acc, &dicts[i]);
            proof {
                let d = ds[i as int];
                assert(d == subst_of(dicts@[i as int]));
                if consistent(joined(ds, i as int), d) {
                    assert forall|x: int, y: int| 0 <= x < y < i + 1 implies consistent(
                        #[trigger] ds[x],
                        #[trigger] ds[y],
                    ) by {
                        if y == i {
                            assert forall|k: Seq<char>|
                                ds[x].contains_key(k) && d.contains_key(k) implies ds[x][k]
                                == d[k] by {
                                lemma_joined(ds, i as int, k);
                            }
                        }
                    }
                } else {
                    let k = choose|k: Seq<char>|
                        joined(ds, i as int).contains_key(k) && d.contains_key(k) && joined(
                            ds,
                            i as int,
                        )[k] != d[k];
                    lemma_joined(ds, i as int, k);
                    let x = choose|x: int| 0 <= x < i && (#[trigger] ds[x]).contains_key(k);
                    assert(!consistent(ds[x], ds[i as int]));
                }
            }
            match next {
                Some(m) => {
                    acc = m;
                },
                None => {
                    return None;
                },
            }
            i += 1;
        }
        Some(acc)
    }

    /// All matches of the pattern in the class of `class`: every returned
    /// set of bindings binds exactly the variables of the pattern, to
    /// representatives, and is a match; and every such match is returned.
    pub fn match_pattern(&self, class: Id, p: &Pattern) -> (r: Vec<Bindings>)
        requires
            self.wf(),
            class < self@.roots.len(),
        ensures
            substs_of(r@) == all_matches(self@, *p, class),
            forall|x: int| 0 <= x < r@.len() ==> fits(self@, *p, #[trigger] r@[x], class),
            forall|s: Subst|
                s.dom() == p.vars() && #[trigger] is_match(self@, *p, s, class) ==> covered(r@, s),
        decreases p,
    {
        let ghost g = self@;
        let c = self.root(class);
        proof {
            assert(g.roots[class as int] <= class);
            assert(g.is_root(c));
        }
        match p {
            Pattern::PatVar(v) => {
                let mut b = bindings_new();
                proof {
                    lemma_put(binding_entries(b), v@, c);
                    assert(bmap(binding_entries(b)) =~= Map::<Seq<char>, usize>::empty());
                }
                bindings_insert(&mut b, v.clone(), c);
                let mut r: Vec<Bindings> = Vec::new();
                r.push(b);
                proof {
                    assert(subst_of(b).dom() =~= p.vars());
                    assert(r@[0] == b);
                    assert(substs_of(r@) =~= all_matches(g, *p, class));
                    assert forall|s: Subst|
                        s.dom() == p.vars() && #[trigger] is_match(g, *p, s, class) implies covered(
                        r@,
                        s,
                    ) by {
                        assert(s =~= subst_of(r@[0]));
                    }
                }
                r
            },
            Pattern::PatTerm(h, ps) => {
                assert(g.classes.contains_key(c));
                let cls = self.get_eclass(c).unwrap();
                let mut out: Vec<Bindings> = Vec::new();
                let mut i: usize = 0;
                assert(substs_of(out@) =~= class_matches(g, c, h@, ps@, 0));
                while i < cls.nodes.len()
                    invariant
                        i <= cls.nodes@.len(),
                        substs_of(out@) == class_matches(g, c, h@, ps@, i as nat),
                        self.wf(),
                        g == self@,
                        g.is_root(c),
                        c == g.find(class),
                        g.classes.contains_key(c),
                        cls@ == g.classes[c],
                        *p == Pattern::PatTerm(*h, *ps),
                        forall|x: int|
                            0 <= x < out@.len() ==> fits(g, *p, #[trigger] out@[x], class),
                        forall|s: Subst, i1: int|
                            0 <= i1 < i && s.dom() == p.vars() && #[trigger] node_hit(
                                g,
                                c,
                                i1,
                                h@,
                                ps@,
                                s,
                            ) ==> covered(out@, s),
                    decreases cls.nodes@.len() - i,
                {
                    let n = &cls.nodes[i];
                    proof {
                        assert(g.has_node(c, i as int));
                        assert(g.node_at(c, i as int) == nodes_view(cls.nodes@)[i as int]);
                        assert(g.node_at(c, i as int) == n@);
                        assert(g.node_ok(n@));
                    }
                    if n.head == *h && n.args.len() == ps.len() {
                        let mut acc: Vec<Bindings> = Vec::new();
                        acc.push(bindings_new());
                        proof {
                            assert(subst_of(acc@[0]) =~= Map::<Seq<char>, usize>::empty());
                            assert(substs_of(acc@) =~= kid_matches(g, ps@, 0, n@.args));
                            assert(subst_of(acc@[0]).dom() =~= vars_upto(ps@, 0));
                            assert forall|s: Subst|
                                s.dom() == vars_upto(ps@, 0) && #[trigger] kids_match(
                                    g,
                                    ps@,
                                    0,
                                    s,
                                    n@.args,
                                ) implies covered(acc@, s) by {
                                assert(s =~= subst_of(acc@[0]));
                            }
                        }
                        let mut j: usize = 0;
                        while j < ps.len()
                            invariant
                                j <= ps@.len(),
                                self.wf(),
                                g == self@,
                                substs_of(acc@) == kid_matches(g, ps@, j as nat, n@.args),
                                g.node_ok(n@),
                                n@.args.len() == ps@.len(),
                                *p == Pattern::PatTerm(*h, *ps),
                                forall|y: int|
                                    0 <= y < acc@.len() ==> kids_fit(
                                        g,
                                        ps@,
                                        j as nat,
                                        #[trigger] acc@[y],
                                        n@.args,
                                    ),
                                forall|s: Subst|
                                    s.dom() == vars_upto(ps@, j as nat) && #[trigger] kids_match(
                                        g,
                                        ps@,
                                        j as nat,
                                        s,
                                        n@.args,
                                    ) ==> covered(acc@, s),
                            decreases ps@.len() - j,
                        {
                            proof {
                                assert(p->1 == *ps);
                                assert(decreases_to!(*p => p->1));
                                assert(decreases_to!(*ps => ps[j as int]));
                                assert(n@.args[j as int] < g.roots.len());
                            }
                            let child = self.match_pattern(n.args[j], &ps[j]);
                            let next = product(&acc, &child);
                            let ghost j0 = j as nat;
                            let ghost prev = acc@;
                            acc = next;
                            j += 1;
                            proof {
                                let pj = ps@[j0 as int];
                                let aj = n@.args[j0 as int];
                                assert forall|y: int| 0 <= y < acc@.len() implies kids_fit(
                                    g,
                                    ps@,
                                    j as nat,
                                    #[trigger] acc@[y],
                                    n@.args,
                                ) by {
                                    let m = acc@[y];
                                    assert(made_from(prev, child@, m));
                                    let (x1, y1) = choose|x1: int, y1: int| #[trigger]
                                        pair_ok(prev, child@, x1, y1) && subst_of(m) == pair_union(
                                            prev,
                                            child@,
                                            x1,
                                            y1,
                                        );
                                    assert(kids_fit(g, ps@, j0, prev[x1], n@.args));
                                    assert(fits(g, pj, child@[y1], aj));
                                    lemma_step_sound(
                                        g,
                                        ps@,
                                        j0,
                                        n@.args,
                                        subst_of(prev[x1]),
                                        subst_of(child@[y1]),
                                    );
                                }
                                assert forall|s: Subst|
                                    s.dom() == vars_upto(ps@, j as nat) && #[trigger] kids_match(
                                        g,
                                        ps@,
                                        j as nat,
                                        s,
                                        n@.args,
                                    ) implies covered(acc@, s) by {
                                    lemma_step_complete(g, ps@, j0, n@.args, s);
                                    let sa = s.restrict(vars_upto(ps@, j0));
                                    let sb = s.restrict(pj.vars());
                                    assert(kids_match(g, ps@, j0, sa, n@.args));
                                    assert(covered(prev, sa));
                                    assert(is_match(g, pj, sb, aj));
                                    assert(covered(child@, sb));
                                    let x1 = choose|x1: int|
                                        0 <= x1 < prev.len() && subst_of(#[trigger] prev[x1]) == sa;
                                    let y1 = choose|y1: int|
                                        0 <= y1 < child@.len() && subst_of(#[trigger] child@[y1])
                                            == sb;
                                    assert(pair_ok(prev, child@, x1, y1));
                                    assert(pair_union(prev, child@, x1, y1) == s);
                                }
                            }
                        }
                        let ghost before = out@;
                        let ghost found = acc@;
                        out.append(&mut acc);
                        proof {
                            assert(out@ == before + found);
                            assert(substs_of(out@) =~= substs_of(before) + substs_of(found));
                            assert forall|x: int| 0 <= x < out@.len() implies fits(
                                g,
                                *p,
                                #[trigger] out@[x],
                                class,
                            ) by {
                                if x >= before.len() {
                                    let b = found[x - before.len()];
                                    assert(out@[x] == b);
                                    assert(kids_fit(g, ps@, ps@.len(), b, n@.args));
                                    assert(g.has_node(c, i as int));
                                    assert(node_hit(g, c, i as int, h@, ps@, subst_of(b)));
                                } else {
                                    assert(out@[x] == before[x]);
                                }
                            }
                            assert forall|s: Subst, i1: int|
                                0 <= i1 < i + 1 && s.dom() == p.vars() && #[trigger] node_hit(
                                    g,
                                    c,
                                    i1,
                                    h@,
                                    ps@,
                                    s,
                                ) implies covered(out@, s) by {
                                if i1 < i {
                                    assert(covered(before, s));
                                    let x = choose|x: int|
                                        0 <= x < before.len() && subst_of(#[trigger] before[x])
                                            == s;
                                    assert(subst_of(out@[x]) == s);
                                } else {
                                    assert(kids_match(g, ps@, ps@.len(), s, n@.args));
                                    assert(covered(found, s));
                                    let x = choose|x: int|
                                        0 <= x < found.len() && subst_of(#[trigger] found[x]) == s;
                                    assert(out@[before.len() + x] == found[x]);
                                    assert(subst_of(out@[before.len() + x]) == s);
                                }
                            }
                        }
                    }
                    i += 1;
                }
                proof {
                    assert(nodes_view(cls.nodes@).len() == cls.nodes@.len());
                    assert forall|s: Subst|
                        s.dom() == p.vars() && #[trigger] is_match(g, *p, s, class) implies covered(
                        out@,
                        s,
                    ) by {
                        lemma_hit(g, *p, s, class);
                        let i1 = hit_at(g, c, h@, ps@, s);
                        assert(node_hit(g, c, i1, h@, ps@, s));
                    }
                }
                out
            },
        }
    }
}

} // verus!
