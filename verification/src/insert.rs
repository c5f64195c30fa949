use vstd::prelude::*;
use crate::graph::EGraph;
use crate::laws::{
    all_kept, grows, kept, lemma_grows_trans, lemma_kept_node, lemma_kept_start, lemma_kept_step,
};
use crate::growth::{extends, lemma_extends_refl, lemma_extends_trans};
use crate::model::{added, lemma_canon, Graph};
use crate::semantics::{
    args_sound, inserted_sound, lemma_args_sound_start, lemma_args_sound_step, lemma_leaf_sound,
    lemma_node_sound, pushed_sound,
};
use crate::node::{Enode, Id, Node};
use crate::term::{unquote, unquoted, Term};

verus! {

/// The graph after the node `n` is pushed, and the class of the node: the
/// class that the hash-cons table holds for it, or else a new one.
pub open spec fn pushed(g: Graph, n: Node) -> (Graph, usize) {
    match g.lookup(n) {
        Some(c) => (g, c),
        None => (added(g, g.canon(n)), g.roots.len() as usize),
    }
}

/// The graph after the term `t` is inserted bottom-up, and the class of the term.
pub open spec fn ins(g: Graph, t: Term) -> (Graph, usize)
    decreases t, 0nat,
{
    let sub = ins_args(g, t.args@, t.args@.len());
    pushed(sub.0, Node { head: unquoted(t.head@), args: sub.1 })
}

/// The graph after the first `n` terms of `ts` are inserted in turn, and their classes.
pub open spec fn ins_args(g: Graph, ts: Seq<Term>, n: nat) -> (Graph, Seq<usize>)
    decreases ts, n,
{
    if n == 0 || n > ts.len() {
        (g, Seq::empty())
    } else {
        let before = ins_args(g, ts, (n - 1) as nat);
        let last = ins(before.0, ts[n - 1]);
        (last.0, before.1.push(last.1))
    }
}

impl EGraph {
    /// The class of the atom `x`, which is created if the e-graph does not hold it yet.
    pub fn leaflet(&mut self, x: String) -> (id: Id)
        requires
            old(self).wf(),
        ensures
            final(self).wf(),
            (final(self)@, id) == pushed(old(self)@, Node { head: x@, args: Seq::empty() }),
            pushed_sound(old(self)@, final(self)@, id, Node { head: x@, args: Seq::empty() }),
            old(self)@.lookup(Node { head: x@, args: Seq::empty() }).is_none() ==> old(self)@.roots.len() < usize::MAX,
            final(self).dirty() == old(self).dirty(),
            final(self).merges() == old(self).merges(),
            extends(old(self)@, final(self)@),
            id < final(self)@.roots.len(),
            final(self)@.find(id) == id,
            old(self)@.roots.len() <= final(self)@.roots.len(),
    {
        let mut t = Enode::new(x);
        let ghost n = t@;
        proof {
            self.lemma_sets();
            lemma_canon(self@, n);
            assert(self@.canon(n).args =~= n.args);
        }
        self.push_eclass(&mut t)
    }

    /// Inserts the term bottom-up and returns its class. Every subterm that
    /// the e-graph holds already keeps its class.
    pub fn insert_sexpr(&mut self, f: &Term) -> (id: Id)
        requires
            old(self).wf(),
        ensures
            final(self).wf(),
            (final(self)@, id) == ins(old(self)@, *f),
            inserted_sound(old(self)@, final(self)@, *f, id),
            kept(final(self)@, *f, id),
            grows(old(self)@, final(self)@),
            final(self).dirty() == old(self).dirty(),
            final(self).merges() == old(self).merges(),
            extends(old(self)@, final(self)@),
            id < final(self)@.roots.len(),
            final(self)@.find(id) == id,
            old(self)@.roots.len() <= final(self)@.roots.len(),
        decreases f,
    {
        if f.args.len() == 0 {
            let id = self.leaflet(unquote(f.head.as_str()));
            proof {
                lemma_leaf_sound(old(self)@, self@, *f, id);
                lemma_kept_start(old(self)@, f.args@);
                let n = Node { head: unquoted(f.head@), args: Seq::<usize>::empty() };
                lemma_canon(old(self)@, n);
                assert(old(self)@.canon(n).args =~= n.args);
                lemma_kept_node(old(self)@, old(self).dirty(), self@, *f, Seq::empty(), id);
            }
            return id;
        }
        let mut node = Enode::new(unquote(f.head.as_str()));
        let mut i: usize = 0;
        proof {
            lemma_extends_refl(self@, self.dirty());
            lemma_args_sound_start(self@, f.args@);
            lemma_kept_start(self@, f.args@);
            assert(grows(self@, self@));
        }
        while i < f.args.len()
            invariant
                i <= f.args@.len(),
                self.wf(),
                self.dirty() == old(self).dirty(),
                self.merges() == old(self).merges(),
                old(self).wf(),
                extends(old(self)@, self@),
                old(self)@.roots.len() <= self@.roots.len(),
                node.head@ == unquoted(f.head@),
                node.args@.len() == i,
                (self@, node.args@) == ins_args(old(self)@, f.args@, i as nat),
                args_sound(old(self)@, self@, f.args@, i as nat, node.args@),
                all_kept(self@, f.args@, i as nat, node.args@),
                grows(old(self)@, self@),
                forall|x: int| 0 <= x < i ==> self@.is_root(#[trigger] node.args@[x]),
            decreases f.args@.len() - i,
        {
            let ghost before = self@;
            let ghost marks = self.dirty();
            let ghost args0 = node.args@;
            let id = self.insert_sexpr(&f.args[i]);
            proof {
                lemma_extends_trans(old(self)@, before, self@, old(self).dirty(), marks);
            }
            node.args.push(id);
            proof {
                assert forall|x: int| 0 <= x < args0.len() implies (#[trigger] args0[x])
                    < before.roots.len() by {
                    assert(before.is_root(args0[x]));
                }
                lemma_args_sound_step(old(self)@, before, self@, f.args@, i as nat, args0, id);
                lemma_kept_step(before, self@, f.args@, i as nat, args0, id);
                lemma_grows_trans(old(self)@, before, self@);
                assert forall|x: int| 0 <= x < i + 1 implies self@.is_root(
                    #[trigger] node.args@[x],
                ) by {
                    if x < i {
                        assert(before.is_root(args0[x]));
                        assert(self@.roots[args0[x] as int] == before.roots[args0[x] as int]);
                    }
                }
            }
            i += 1;
        }
        assert(self@.node_ok(node@)) by {
            assert forall|x: int| 0 <= x < node@.args.len() implies (#[trigger] node@.args[x])
                < self@.roots.len() by {
                assert(self@.is_root(node.args@[x]));
            }
        }
        let ghost before = self@;
        let ghost marks = self.dirty();
        let ghost args0 = node.args@;
        let id = self.push_eclass(&mut node);
        proof {
            lemma_extends_trans(old(self)@, before, self@, old(self).dirty(), marks);
            assert forall|x: int| 0 <= x < args0.len() implies (#[trigger] node@.args[x])
                < before.roots.len() && args0[x] < before.roots.len() && before.find(
                node@.args[x],
            ) == before.find(args0[x]) by {
                assert(before.roots[args0[x] as int] <= args0[x]);
            }
            lemma_node_sound(old(self)@, before, self@, *f, args0, node@, id);
            assert(args0.len() == f.args@.len());
            let n0 = Node { head: unquoted(f.head@), args: args0 };
            assert(before.node_ok(n0) && before.canonical(n0)) by {
                assert forall|x: int| 0 <= x < n0.args.len() implies before.is_root(
                    #[trigger] n0.args[x],
                ) by {
                    assert(before.is_root(args0[x]));
                }
            }
            lemma_canon(before, n0);
            lemma_kept_node(before, marks, self@, *f, args0, id);
            lemma_grows_trans(old(self)@, before, self@);
        }
        id
    }
}

} // verus!
