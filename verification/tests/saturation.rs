use eqsat::graph::EGraph;
use eqsat::node::Enode;
use eqsat::term::{Pattern, Rule, Term};

fn leaf(s: &str) -> Term {
    Term::leaf(s)
}

fn app(h: &str, args: Vec<Term>) -> Term {
    Term::app(h, args)
}

fn var(s: &str) -> Pattern {
    Pattern::PatVar(s.to_string())
}

fn pat(h: &str, args: Vec<Pattern>) -> Pattern {
    Pattern::PatTerm(h.to_string(), args)
}

fn node(h: &str, args: Vec<usize>) -> Enode {
    Enode { head: h.to_string(), args }
}

#[test]
fn trivial_leaf() {
    let mut g = EGraph::new();
    let a = g.insert_sexpr(&leaf("a"));
    assert_eq!(a, 0);
    assert_eq!(g.class_ids(), vec![0]);
    let c = g.get_eclass(a).unwrap();
    assert_eq!(c.nodes, vec![node("a", vec![])]);
    assert!(c.parents.is_empty());
    assert_eq!(g.len(), 1);
    let mut q = node("a", vec![]);
    assert_eq!(g.find_eclass(&mut q), Some(a));
    let mut other = node("b", vec![]);
    assert_eq!(g.find_eclass(&mut other), None);
}

#[test]
fn shared_subterm() {
    let mut g = EGraph::new();
    let plus = g.insert_sexpr(&app("+", vec![leaf("a"), leaf("a")]));
    assert_eq!(plus, 1);
    assert_eq!(g.class_ids(), vec![0, 1]);
    let a = g.get_eclass(0).unwrap();
    assert_eq!(a.nodes, vec![node("a", vec![])]);
    assert!(a.parents.contains(&(node("+", vec![0, 0]), plus)));
    assert_eq!(a.parents.len(), 2);
    let p = g.get_eclass(1).unwrap();
    assert_eq!(p.nodes, vec![node("+", vec![0, 0])]);
}

#[test]
fn congruence_by_union() {
    let mut g = EGraph::new();
    let fa = g.insert_sexpr(&app("f", vec![leaf("a")]));
    let fb = g.insert_sexpr(&app("f", vec![leaf("b")]));
    let a = g.insert_sexpr(&leaf("a"));
    let b = g.insert_sexpr(&leaf("b"));
    assert_eq!((a, fa, b, fb), (0, 1, 2, 3));
    assert_ne!(g.find_mut(fa), g.find_mut(fb));
    assert_eq!(g.union(a, b), Some(0));
    assert_eq!(g.find_mut(a), g.find_mut(b));
    g.rebuild();
    assert_eq!(g.find_mut(fa), g.find_mut(fb));
    assert_eq!(g.find_mut(fb), 1);
    assert!(g.dirty_ids().is_empty());
    assert_eq!(g.class_ids(), vec![0, 1]);
    // the two congruent nodes have become one
    assert_eq!(g.get_eclass(1).unwrap().nodes, vec![node("f", vec![0])]);
    assert!(g.in_same_class(node("f", vec![0]), node("f", vec![2])));
}

#[test]
fn single_rewrite() {
    let mut g = EGraph::new();
    let root = g.insert_sexpr(&app("*", vec![leaf("x"), leaf("2")]));
    let rule = Rule {
        lhs: pat("*", vec![var("?x"), pat("2", vec![])]),
        rhs: pat("<<", vec![var("?x"), pat("1", vec![])]),
    };
    assert_eq!(g.rewrite_lhs_to_rhs(rule), 1);
    g.rebuild();
    let shl = g.insert_sexpr(&app("<<", vec![leaf("x"), leaf("1")]));
    assert_eq!(g.find_mut(root), g.find_mut(shl));
    let r = g.find_mut(root);
    assert_eq!(
        g.get_eclass(r).unwrap().nodes,
        vec![node("*", vec![0, 1]), node("<<", vec![0, 3])]
    );
}

#[test]
fn multi_pass_saturation() {
    let mut g = EGraph::new();
    let root = g.insert_sexpr(&app("*", vec![app("+", vec![leaf("a"), leaf("0")]), leaf("1")]));
    let a = g.insert_sexpr(&leaf("a"));
    let rules = vec![
        Rule { lhs: pat("+", vec![var("?x"), pat("0", vec![])]), rhs: var("?x") },
        Rule { lhs: pat("*", vec![var("?x"), pat("1", vec![])]), rhs: var("?x") },
    ];
    for _ in 0..2 {
        g.rewrite_ruleset(rules.clone());
        g.rebuild();
    }
    assert_eq!(g.find_mut(a), g.find_mut(root));
}

#[test]
fn no_spurious_union() {
    let mut g = EGraph::new();
    let fa = g.insert_sexpr(&app("f", vec![leaf("a")]));
    let ga = g.insert_sexpr(&app("g", vec![leaf("a")]));
    for _ in 0..5 {
        g.rebuild();
        assert_ne!(g.find_mut(fa), g.find_mut(ga));
    }
    assert_eq!(g.class_ids(), vec![0, 1, 2]);
}

#[test]
fn insertion_is_idempotent() {
    let t = app("+", vec![app("*", vec![leaf("a"), leaf("b")]), leaf("a")]);
    let mut g = EGraph::new();
    let id0 = g.insert_sexpr(&t);
    let n = g.len();
    let id1 = g.insert_sexpr(&t);
    let id2 = g.insert_sexpr(&t);
    assert_eq!(id0, id1);
    assert_eq!(g.find_mut(id1), g.find_mut(id2));
    assert_eq!(g.len(), n);
    assert_eq!(n, 4);
}

#[test]
fn union_is_symmetric() {
    let mut g = EGraph::new();
    let a = g.leaflet("a".to_string());
    let b = g.leaflet("b".to_string());
    let c = g.leaflet("c".to_string());
    assert_eq!(g.union(c, a), Some(a));
    assert_eq!(g.find_mut(a), g.find_mut(c));
    assert_eq!(g.union(a, c), None);
    assert_eq!(g.union(b, c), Some(a));
    assert_eq!(g.find_mut(b), a);
    assert_eq!(g.class_ids(), vec![a]);
}

#[test]
fn rebuild_restores_the_invariants() {
    let mut g = EGraph::new();
    g.insert_sexpr(&app("h", vec![app("f", vec![leaf("a")]), app("f", vec![leaf("b")])]));
    g.insert_sexpr(&app("g", vec![app("f", vec![leaf("b")])]));
    g.insert_sexpr(&app("g", vec![app("f", vec![leaf("a")])]));
    assert_eq!(g.union(0, 2), Some(0));
    g.rebuild();
    for k in g.class_ids() {
        assert_eq!(g.find_mut(k), k);
        let c = g.get_eclass(k).unwrap().clone();
        for n in c.nodes.iter() {
            // every argument is a representative
            for x in n.args.iter() {
                assert_eq!(g.find_mut(*x), *x);
            }
            // the node is held by the table, for this class
            let mut q = n.clone();
            assert_eq!(g.find_eclass(&mut q), Some(k));
            // every argument class lists the node
            for x in n.args.iter() {
                let child = g.get_eclass(*x).unwrap().clone();
                let mut listed = false;
                for (p, pid) in child.parents.iter() {
                    let mut p = p.clone();
                    g.canonicalize_args(&mut p);
                    if p == *n && g.find_mut(*pid) == k {
                        listed = true;
                    }
                }
                assert!(listed);
            }
        }
    }
    // f(a) = f(b), so g(f(a)) = g(f(b))
    assert_eq!(g.class_ids(), vec![0, 1, 4, 5]);
    assert_eq!(g.get_eclass(5).unwrap().nodes, vec![node("g", vec![1])]);
    assert_eq!(g.get_eclass(4).unwrap().nodes, vec![node("h", vec![1, 1])]);
}

#[test]
fn rewriting_loses_nothing() {
    let mut g = EGraph::new();
    let t = app("+", vec![app("*", vec![leaf("a"), leaf("1")]), leaf("0")]);
    let root = g.insert_sexpr(&t);
    let before = g.len();
    let rules = vec![
        Rule { lhs: pat("+", vec![var("?x"), pat("0", vec![])]), rhs: var("?x") },
        Rule { lhs: pat("*", vec![var("?x"), pat("1", vec![])]), rhs: var("?x") },
    ];
    let edits = g.rewrite_ruleset(rules);
    g.rebuild();
    assert_eq!(edits, 2);
    // the term is still there, in the class it was in
    assert_eq!(g.insert_sexpr(&t), g.find_mut(root));
    assert_eq!(g.len(), before);
}

#[test]
fn dirty_ids_are_repaired_once() {
    let mut g = EGraph::new();
    let fa = g.insert_sexpr(&app("f", vec![leaf("a")]));
    let fb = g.insert_sexpr(&app("f", vec![leaf("b")]));
    let fc = g.insert_sexpr(&app("f", vec![leaf("c")]));
    assert_eq!(g.union(0, 2), Some(0));
    assert_eq!(g.union(2, 4), Some(0));
    assert_eq!(g.dirty_ids(), &vec![0, 0]);
    g.rebuild();
    assert!(g.dirty_ids().is_empty());
    assert_eq!(g.find_mut(fb), fa);
    assert_eq!(g.find_mut(fc), fa);
    assert_eq!(g.get_eclass(0).unwrap().parents, vec![(node("f", vec![0]), 1)]);
}

#[test]
fn push_canonicalizes_its_arguments() {
    let mut g = EGraph::new();
    let a = g.leaflet("a".to_string());
    let b = g.leaflet("b".to_string());
    g.union(a, b);
    let mut n = node("f", vec![b]);
    let id = g.push_eclass(&mut n);
    assert_eq!(n, node("f", vec![a]));
    assert_eq!(id, 2);
    let mut again = node("f", vec![b]);
    assert_eq!(g.push_eclass(&mut again), id);
    let mut m = node("g", vec![b, a]);
    let copy = g.canonicalize_args(&mut m);
    assert_eq!(copy, node("g", vec![a, a]));
    assert_eq!(m, copy);
}

#[test]
fn parents_are_listed_once_after_repair() {
    let mut g = EGraph::new();
    // three parents of the class of a, b and c that become one node
    let fa = g.insert_sexpr(&app("f", vec![leaf("a")]));
    let fb = g.insert_sexpr(&app("f", vec![leaf("b")]));
    let fc = g.insert_sexpr(&app("f", vec![leaf("c")]));
    let more = g.insert_sexpr(&app("g", vec![leaf("a"), leaf("b")]));
    g.union(0, 2);
    g.union(0, 4);
    g.rebuild();
    assert_eq!(g.find_mut(fb), fa);
    assert_eq!(g.find_mut(fc), fa);
    let a = g.get_eclass(0).unwrap();
    let mut seen = Vec::new();
    for e in a.parents.iter() {
        assert!(!seen.contains(e));
        seen.push(e.clone());
    }
    assert!(seen.contains(&(node("f", vec![0]), fa)));
    assert!(seen.contains(&(node("g", vec![0, 0]), more)));
    assert_eq!(g.get_eclass(more).unwrap().nodes, vec![node("g", vec![0, 0])]);
}

#[test]
fn members_of_a_class_are_distinct() {
    let mut g = EGraph::new();
    let t1 = g.insert_sexpr(&app("f", vec![leaf("a"), leaf("b")]));
    let t2 = g.insert_sexpr(&app("f", vec![leaf("b"), leaf("a")]));
    g.union(0, 1);
    g.union(t1, t2);
    let c = g.get_eclass(t1).unwrap();
    assert_eq!(c.nodes, vec![node("f", vec![0, 0])]);
    g.rebuild();
    assert_eq!(g.get_eclass(t1).unwrap().nodes, vec![node("f", vec![0, 0])]);
    assert_eq!(g.class_ids(), vec![0, 2]);
}

#[test]
fn a_merged_member_looks_up_to_the_survivor() {
    let mut g = EGraph::new();
    let a = g.leaflet("a".to_string());
    let b = g.leaflet("b".to_string());
    let gb = g.push_eclass(&mut node("g", vec![b]));
    assert_eq!(g.union(b, gb), Some(b));
    let ga = g.push_eclass(&mut node("g", vec![a]));
    assert_eq!((a, b, gb, ga), (0, 1, 2, 3));
    assert_eq!(g.union(a, b), Some(a));
    // class 0 holds a, b and (g 0); the table sends each of them to it
    assert_eq!(
        g.get_eclass(0).unwrap().nodes,
        vec![node("a", vec![]), node("b", vec![]), node("g", vec![0])]
    );
    assert_eq!(g.find_eclass(&mut node("g", vec![a])), Some(0));
    assert_eq!(g.find_eclass(&mut node("g", vec![b])), Some(0));
    assert_eq!(g.find_eclass(&mut node("b", vec![])), Some(0));
    g.rebuild();
    assert_eq!(g.find_mut(ga), 0);
    assert_eq!(g.class_ids(), vec![0]);
}

#[test]
fn a_second_application_changes_nothing() {
    let mut g = EGraph::new();
    g.insert_sexpr(&app("*", vec![leaf("x"), leaf("2")]));
    let rule = Rule {
        lhs: pat("*", vec![var("?x"), pat("2", vec![])]),
        rhs: pat("<<", vec![var("?x"), pat("1", vec![])]),
    };
    assert_eq!(g.rewrite_lhs_to_rhs(rule.clone()), 1);
    assert_eq!(g.len(), 5);
    assert_eq!(g.class_ids(), vec![0, 1, 2, 3]);
    assert_eq!(g.dirty_ids(), &vec![2]);
    let before = format!("{:?}", g);
    assert_eq!(g.rewrite_lhs_to_rhs(rule), 0);
    assert_eq!(format!("{:?}", g), before);
}

#[test]
fn without_a_match_nothing_is_rewritten() {
    let mut g = EGraph::new();
    g.insert_sexpr(&app("f", vec![leaf("a")]));
    let before = format!("{:?}", g);
    let rule = Rule { lhs: pat("g", vec![var("?x")]), rhs: pat("h", vec![var("?x")]) };
    assert_eq!(g.rewrite_lhs_to_rhs(rule), 0);
    assert_eq!(format!("{:?}", g), before);
    assert!(g.dirty_ids().is_empty());
    assert_eq!(g.rewrite_ruleset(vec![]), 0);
    assert_eq!(format!("{:?}", g), before);
}

#[test]
fn a_ruleset_is_its_rules_one_after_another() {
    let t = app("*", vec![app("+", vec![leaf("a"), leaf("0")]), leaf("1")]);
    let r1 = Rule { lhs: pat("+", vec![var("?x"), pat("0", vec![])]), rhs: var("?x") };
    let r2 = Rule { lhs: pat("*", vec![var("?x"), pat("1", vec![])]), rhs: var("?x") };
    let mut g = EGraph::new();
    g.insert_sexpr(&t);
    let mut h = g.clone();
    let all = g.rewrite_ruleset(vec![r1.clone(), r2.clone()]);
    let one = h.rewrite_lhs_to_rhs(r1);
    let two = h.rewrite_lhs_to_rhs(r2);
    assert_eq!(all, one + two);
    assert_eq!(format!("{:?}", g), format!("{:?}", h));
    assert!(!g.dirty_ids().is_empty());
}
