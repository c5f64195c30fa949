use eqsat::graph::EGraph;
use eqsat::node::{EClass, Enode};
use eqsat::term::{new_pattern, Rule, Term};
use rand::{thread_rng, Rng};
use symbolic_expressions::parser::parse_str;
use symbolic_expressions::Sexp;

const NESTED_ADD: &str = "(+ (+ a b) (+ c d))";
const MULT: &str = "(/ (* a 2) 2)";
const CONST_MULT: &str = "(* (* a 2) 2)";
const EXAMPLE: &str = "(* (+ a 0) 1)";

fn term_of(s: &Sexp) -> Term {
    match s {
        Sexp::List(list) => {
            Term::app(&list[0].to_string(), list[1..].iter().map(term_of).collect())
        }
        other => Term::leaf(&other.to_string()),
    }
}

fn parse(text: &str) -> Term {
    term_of(&parse_str(text).unwrap())
}

fn ruleset_a() -> Vec<Rule> {
    vec![
        Rule::new_rule(&parse("(+ P_x 0)"), &parse("P_x")).unwrap(),
        Rule::new_rule(&parse("(* P_x 1)"), &parse("P_x")).unwrap(),
    ]
}

#[test]
fn egraph_construction() {
    let sexp = parse(NESTED_ADD);
    let mut g = EGraph::new();
    println!("empty graph: {:?}\n", g);
    assert_eq!(g.len(), 0);
    let root = g.insert_sexpr(&sexp);
    println!("\nnew graph: {:?}", g);
    assert_eq!(root, 6);
    assert_eq!(g.len(), 7);
    assert_eq!(g.class_ids(), vec![0, 1, 2, 3, 4, 5, 6]);
}

#[test]
fn egraph_editing() {
    let sexp = parse(MULT);
    let mut g = EGraph::new();
    let root = g.insert_sexpr(&sexp);
    println!("\nnew egraph: {:?}", g);
    assert_eq!(root, 3);
    let altsexp = parse("(<< a 1)");
    println!("\nextra term: {:?}\n", altsexp);
    let extra = g.insert_sexpr(&altsexp);
    println!("\nedited graph: {:?}", g);
    assert_eq!(extra, 5);
    assert_eq!(g.len(), 6);
    let shl = g.get_eclass(extra).unwrap();
    assert_eq!(shl.nodes, vec![Enode { head: "<<".to_string(), args: vec![0, 4] }]);
}

#[test]
fn egraph_union() {
    let sexp = parse(MULT);
    let mut g = EGraph::new();
    g.insert_sexpr(&sexp);
    let altsexp = parse("(<< a 1)");
    g.insert_sexpr(&altsexp);
    println!("\nedited graph: {:?}", g);
    println!("\nunioning eclass 3 and 4...\n\n");
    let kept = g.union(2, 4);
    println!("{:?}", g);
    assert_eq!(kept, Some(2));
    assert_eq!(g.find_mut(4), 2);
    assert!(g.get_eclass(4).is_none());
    assert_eq!(g.get_eclass(2).unwrap().nodes.len(), 2);
    assert_eq!(g.dirty_ids(), &vec![2]);
}

#[test]
fn egraph_matching() {
    let sexp = parse(CONST_MULT);
    let mut g = EGraph::new();
    g.insert_sexpr(&sexp);
    println!("\nnew egraph: {:?}", g);
    let patt = new_pattern(&parse("(* P_a 2)")).unwrap();
    let mut hits = 0;
    for c in g.class_ids() {
        let res = g.match_pattern(c, &patt);
        println!("\nres = {:?}\n", res);
        hits += res.len();
        for b in res.iter() {
            assert_eq!(b.len(), 1);
            assert!(b.get("P_a").is_some());
        }
    }
    // (* a 2) binds P_a to a, and (* (* a 2) 2) binds it to (* a 2)
    assert_eq!(hits, 2);
    assert_eq!(g.match_pattern(2, &patt)[0].get("P_a"), Some(&0));
    assert_eq!(g.match_pattern(3, &patt)[0].get("P_a"), Some(&2));
}

#[test]
fn egraph_rewrite() {
    let sexp = parse(MULT);
    let mut g = EGraph::new();
    g.insert_sexpr(&sexp);
    println!("\nnew egraph: {:?}", g);
    let r = Rule::new_rule(&parse("(* P_x 2)"), &parse("(<< P_x 1)")).unwrap();
    let edits = g.rewrite_lhs_to_rhs(r);
    println!("{:?}", g);
    assert_eq!(edits, 1);
    let times = g.get_eclass(2).unwrap();
    assert_eq!(
        times.nodes,
        vec![
            Enode { head: "*".to_string(), args: vec![0, 1] },
            Enode { head: "<<".to_string(), args: vec![0, 4] },
        ]
    );
}

#[test]
fn egraph_mass_rewrite() {
    let sexp = parse(EXAMPLE);
    let mut g = EGraph::new();
    let root = g.insert_sexpr(&sexp);
    println!("\nnew egraph: {:?}", g);
    let ruleset = ruleset_a();
    let edits = g.rewrite_ruleset(ruleset.clone());
    println!("first pass edits: {}\n", edits);
    assert_eq!(edits, 2);
    g.rebuild();
    let edits = g.rewrite_ruleset(ruleset.clone());
    println!("second pass edits: {}\n", edits);
    assert_eq!(edits, 0);
    g.rebuild();
    let edits = g.rewrite_ruleset(ruleset);
    println!("third pass edits made: {}\n", edits);
    assert_eq!(edits, 0);
    println!("{:?}", g);
    assert_eq!(g.find_mut(root), g.find_mut(0));
}

fn trav(e: &EGraph, n: &Enode) -> String {
    let mut rng = thread_rng();
    let mut ans = String::new();
    if n.args.is_empty() {
        return format!(" {}", n.head);
    }
    ans.push_str(&format!(" ( {} ", n.head));
    for id in n.args.iter() {
        let cid = e.clone().find(*id);
        if let Some(c) = e.clone().get_eclass_cpy(cid) {
            let ran = rng.gen_range(0..c.nodes.len());
            let n2 = c.nodes[ran].clone();
            ans.push_str(&trav(e, &n2));
        }
    }
    ans.push_str(")");
    ans
}

fn get_root_eclass(g: &EGraph) -> Option<EClass> {
    for id in g.class_ids() {
        let c = g.get_eclass(id).unwrap();
        if c.parents.is_empty() {
            return Some(c.clone());
        }
    }
    None
}

#[test]
fn extract_random_terms() {
    let sexp = parse(EXAMPLE);
    let mut g = EGraph::new();
    let root = g.insert_sexpr(&sexp);
    let ruleset = ruleset_a();
    g.rewrite_ruleset(ruleset.clone());
    g.rebuild();
    g.rewrite_ruleset(ruleset.clone());
    g.rebuild();
    g.rewrite_ruleset(ruleset);
    g.rebuild();
    println!("{:?}", g);
    if let Some(cls) = get_root_eclass(&g) {
        for n in cls.nodes.iter() {
            println!("res: {}\n", trav(&g, n));
        }
    }
    // the whole term has become equal to `a`, whose class has itself as a parent
    assert_eq!(g.find_mut(root), 0);
    assert!(get_root_eclass(&g).is_none());
    let a = g.get_eclass(0).unwrap().nodes[0].clone();
    assert_eq!(trav(&g, &a), " a");
}
