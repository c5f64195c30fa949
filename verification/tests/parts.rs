use eqsat::bindings::{merge, product};
use eqsat::graph::EGraph;
use eqsat::node::{entry_position, position, EClass, Enode};
use eqsat::tables::Bindings;
use eqsat::term::{is_var_name, new_pattern, unquote, Pattern, Rule, Term};
use eqsat::unionfind::UnionFind;

fn var(s: &str) -> Pattern {
    Pattern::PatVar(s.to_string())
}

fn pat(h: &str, args: Vec<Pattern>) -> Pattern {
    Pattern::PatTerm(h.to_string(), args)
}

fn bind(pairs: &[(&str, usize)]) -> Bindings {
    let mut b = Bindings::default();
    for (k, v) in pairs {
        b.insert(k.to_string(), *v);
    }
    b
}

#[test]
fn union_find_keeps_the_smaller_id() {
    let mut uf = UnionFind::new();
    for i in 0..5 {
        assert_eq!(uf.new_set(), i);
    }
    assert_eq!(uf.len(), 5);
    assert_eq!(uf.union(3, 1), 1);
    assert_eq!(uf.union(4, 3), 1);
    assert_eq!(uf.union(1, 4), 1);
    assert_eq!(uf.find(4), 1);
    assert_eq!(uf.find_mut(4), 1);
    assert_eq!(uf.find(0), 0);
    assert!(uf.in_same_set(3, 4));
    assert!(!uf.in_same_set(0, 4));
    assert_eq!(uf.union(0, 4), 0);
    assert_eq!(uf.find(3), 0);
    assert_eq!(uf.find(2), 2);
    let mut n = Enode { head: "f".to_string(), args: vec![4, 2, 0] };
    uf.canonicalize(&mut n);
    assert_eq!(n.args, vec![0, 2, 0]);
}

#[test]
fn nodes_compare_by_head_and_arguments() {
    let a = Enode::new("f".to_string());
    assert!(a.args.is_empty());
    let b = Enode { head: "f".to_string(), args: vec![1, 2] };
    let c = b.copy();
    assert_eq!(b, c);
    assert!(b.same(&c));
    assert!(!a.same(&b));
    assert!(!b.same(&Enode { head: "f".to_string(), args: vec![1, 3] }));
    assert!(!b.same(&Enode { head: "g".to_string(), args: vec![1, 2] }));
    let list = vec![a.copy(), b.copy()];
    assert_eq!(position(&list, &b), Some(1));
    assert_eq!(position(&list, &Enode::new("g".to_string())), None);
    let entries = vec![(a.copy(), 3), (b.copy(), 4), (a.copy(), 5)];
    assert_eq!(entry_position(&entries, &a, 5), Some(2));
    assert_eq!(entry_position(&entries, &b, 5), None);
    let class = EClass::new(b.copy());
    assert_eq!(class.nodes, vec![b]);
    assert!(class.parents.is_empty());
    let twin = class.copy();
    assert_eq!(twin.nodes, class.nodes);
}

#[test]
fn quotes_are_stripped_from_both_ends() {
    assert_eq!(unquote("\"a b\""), "a b");
    assert_eq!(unquote("\"\"x\"y\"\""), "x\"y");
    assert_eq!(unquote("plain"), "plain");
    assert_eq!(unquote("\"\""), "");
    assert_eq!(unquote(""), "");
    let mut g = EGraph::new();
    let quoted = g.insert_sexpr(&Term::leaf("\"a b\""));
    let bare = g.leaflet("a b".to_string());
    assert_eq!(quoted, bare);
}

#[test]
fn patterns_are_read_from_terms() {
    assert!(is_var_name("?x"));
    assert!(is_var_name("P_x"));
    assert!(!is_var_name("x"));
    assert!(!is_var_name("P"));
    assert!(!is_var_name(""));
    let t = Term::app("*", vec![Term::leaf("?x"), Term::leaf("2")]);
    assert_eq!(new_pattern(&t), Some(pat("*", vec![var("?x"), pat("2", vec![])])));
    let bad = Term::app("?f", vec![Term::leaf("a")]);
    assert_eq!(new_pattern(&bad), None);
    assert_eq!(new_pattern(&Term::app("g", vec![bad])), None);
    let p = new_pattern(&t).unwrap();
    assert!(p.has_var(&"?x".to_string()));
    assert!(!p.has_var(&"?y".to_string()));
    assert!(var("?x").vars_in(&p));
    assert!(!pat("f", vec![var("?x"), var("?y")]).vars_in(&p));
}

#[test]
fn rules_need_their_variables_on_the_left() {
    let lhs = Term::app("+", vec![Term::leaf("?x"), Term::leaf("0")]);
    let rhs = Term::leaf("?x");
    let r = Rule::new_rule(&lhs, &rhs).unwrap();
    assert_eq!(r.lhs, pat("+", vec![var("?x"), pat("0", vec![])]));
    assert_eq!(r.rhs, var("?x"));
    assert!(Rule::new_rule(&rhs, &Term::leaf("?y")).is_none());
    assert!(Rule::new_rule(&Term::app("?x", vec![Term::leaf("a")]), &rhs).is_none());
    assert!(Rule::new_rule(&lhs, &Term::app("?x", vec![Term::leaf("a")])).is_none());
}

#[test]
fn bindings_merge_where_they_agree() {
    let a = bind(&[("x", 1), ("y", 2)]);
    let b = bind(&[("y", 2), ("z", 3)]);
    let m = merge(&a, &b).unwrap();
    assert_eq!(m.len(), 3);
    assert_eq!(m.get("x"), Some(&1));
    assert_eq!(m.get("y"), Some(&2));
    assert_eq!(m.get("z"), Some(&3));
    let c = bind(&[("y", 5)]);
    assert!(merge(&a, &c).is_none());
    assert_eq!(merge(&a, &Bindings::default()).unwrap(), a);
    let all = EGraph::merge_consistent(&vec![a.clone(), b.clone(), bind(&[("w", 0)])]).unwrap();
    assert_eq!(all.len(), 4);
    assert_eq!(all.get("w"), Some(&0));
    assert!(EGraph::merge_consistent(&vec![a.clone(), b.clone(), c.clone()]).is_none());
    assert_eq!(EGraph::merge_consistent(&vec![]).unwrap().len(), 0);
    let pairs = product(&vec![a.clone(), c.clone()], &vec![b.clone(), bind(&[("y", 5)])]);
    assert_eq!(pairs.len(), 2);
    assert_eq!(pairs[0], m);
    assert_eq!(pairs[1], c);
}

#[test]
fn matching_returns_every_consistent_binding() {
    let mut g = EGraph::new();
    let t = Term::app("+", vec![Term::leaf("a"), Term::leaf("b")]);
    let u = Term::app("+", vec![Term::leaf("c"), Term::leaf("c")]);
    let p1 = g.insert_sexpr(&t);
    let p2 = g.insert_sexpr(&u);
    g.union(p1, p2);
    g.rebuild();
    let any = pat("+", vec![var("?x"), var("?y")]);
    let found = g.match_pattern(p2, &any);
    assert_eq!(found.len(), 2);
    assert_eq!(found[0], bind(&[("?x", 0), ("?y", 1)]));
    assert_eq!(found[1], bind(&[("?x", 3), ("?y", 3)]));
    // the same variable twice needs the same class twice
    let twice = pat("+", vec![var("?x"), var("?x")]);
    let found = g.match_pattern(p1, &twice);
    assert_eq!(found, vec![bind(&[("?x", 3)])]);
    // no variables: one empty binding says that there is a match
    let ground = pat("+", vec![pat("a", vec![]), pat("b", vec![])]);
    assert_eq!(g.match_pattern(p1, &ground), vec![Bindings::default()]);
    assert!(g.match_pattern(0, &ground).is_empty());
    // a variable matches any class, with its representative
    assert_eq!(g.match_pattern(p2, &var("?v")), vec![bind(&[("?v", p1)])]);
    // the arity counts
    assert!(g.match_pattern(p1, &pat("+", vec![var("?x")])).is_empty());
}

#[test]
fn a_match_instantiates_to_its_class() {
    let mut g = EGraph::new();
    let t = Term::app("f", vec![Term::app("g", vec![Term::leaf("a")]), Term::leaf("b")]);
    let root = g.insert_sexpr(&t);
    let p = pat("f", vec![pat("g", vec![var("?x")]), var("?y")]);
    let n = g.len();
    for b in g.match_pattern(root, &p) {
        assert_eq!(g.instantiate(&p, &b), Some(root));
    }
    assert_eq!(g.len(), n);
}

#[test]
fn instantiation_needs_every_variable_bound() {
    let mut g = EGraph::new();
    let a = g.leaflet("a".to_string());
    let p = pat("f", vec![var("?x"), pat("c", vec![])]);
    assert!(!g.binds_all(&p, &Bindings::default()));
    assert_eq!(g.instantiate(&p, &Bindings::default()), None);
    assert_eq!(g.instantiate(&p, &bind(&[("?x", 7)])), None);
    assert_eq!(g.len(), 1);
    assert!(g.binds_all(&p, &bind(&[("?x", a)])));
    assert_eq!(g.instantiate(&p, &bind(&[("?x", a)])), Some(2));
    assert_eq!(
        g.get_eclass(2).unwrap().nodes,
        vec![Enode { head: "f".to_string(), args: vec![0, 1] }]
    );
    assert_eq!(g.instantiate(&var("?x"), &bind(&[("?x", a)])), Some(a));
}

#[test]
fn a_rule_with_a_free_variable_rewrites_nothing() {
    let mut g = EGraph::new();
    g.insert_sexpr(&Term::app("f", vec![Term::leaf("a")]));
    let r = Rule { lhs: pat("f", vec![var("?x")]), rhs: var("?y") };
    assert_eq!(g.rewrite_lhs_to_rhs(r), 0);
    assert_eq!(g.class_ids(), vec![0, 1]);
}

#[test]
fn classes_are_read_by_representative() {
    let mut g = EGraph::new();
    let a = g.leaflet("a".to_string());
    let b = g.leaflet("b".to_string());
    g.union(a, b);
    assert!(g.get_eclass(b).is_none());
    assert!(g.get_eclass(9).is_none());
    let c = g.clone().get_eclass_cpy(a).unwrap();
    assert_eq!(c.nodes.len(), 2);
    assert!(g.clone().get_eclass_cpy(b).is_none());
    assert_eq!(g.clone().find(b), a);
    assert_eq!(g.root(b), a);
}

#[test]
fn matches_come_once_and_in_order() {
    let mut g = EGraph::new();
    let p1 = g.insert_sexpr(&Term::app("f", vec![Term::leaf("a")]));
    let p2 = g.insert_sexpr(&Term::app("f", vec![Term::leaf("b")]));
    g.union(p1, p2);
    let found = g.match_pattern(p1, &pat("f", vec![var("?x")]));
    assert_eq!(found, vec![bind(&[("?x", 0)]), bind(&[("?x", 2)])]);
    assert_eq!(g.match_pattern(p2, &var("?v")), vec![bind(&[("?v", p1)])]);
    let mut h = EGraph::new();
    let r = h.insert_sexpr(&Term::app("f", vec![Term::leaf("a"), Term::leaf("b")]));
    assert!(h.match_pattern(r, &pat("f", vec![var("?x")])).is_empty());
    assert!(h.match_pattern(r, &pat("f", vec![var("?x"), var("?y"), var("?z")])).is_empty());
    assert!(h.match_pattern(r, &pat("g", vec![var("?x"), var("?y")])).is_empty());
    assert_eq!(
        h.match_pattern(r, &pat("f", vec![var("?x"), var("?y")])),
        vec![bind(&[("?x", 0), ("?y", 1)])]
    );
}

#[test]
fn copies_are_the_same() {
    let t = Term::app("f", vec![Term::leaf("a"), Term::app("g", vec![Term::leaf("b")])]);
    assert_eq!(t.clone(), t);
    let p = pat("f", vec![var("?x"), pat("g", vec![var("?y")])]);
    assert_eq!(p.clone(), p);
}
