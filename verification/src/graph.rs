use vstd::prelude::*;
use crate::model::{
    added, covers, dropped, fold_memo, fold_nodes, lemma_add, lemma_added_distinct, lemma_canon,
    lemma_drop, lemma_merge, lemma_merged_distinct, lemma_recanoned_distinct, lemma_rekey,
    lemma_remark, lemma_set_parents, lemma_unmark, lemma_with_parents_distinct, merged, occurrences,
    recanoned, rekeyed, with_parents, Graph,
};
use crate::closure::{
    backed, backed_node, carries, closed_over, entries_backed, finds, justified, keeps, least,
    lemma_add_sound, lemma_alike_refl, lemma_backed_alike, lemma_canon_sound, lemma_drop_backed,
    lemma_drop_sound, lemma_entry_backed, lemma_hit_memo, lemma_includes, lemma_kept_least,
    lemma_merge_backed, lemma_merge_sound, lemma_rekey_backed, lemma_rekey_sound,
    lemma_set_parents_backed, lemma_set_parents_sound, lemma_sym, lemma_trans, Rel,
};
use crate::laws::{law_nothing_made_up, rooted};
use crate::semantics::{
    agree, lemma_add_models, lemma_drop_models, lemma_held_value, lemma_hit_value, lemma_memo_value,
    lemma_merge_models, lemma_rekey_models, lemma_root_value, lemma_same_value,
    lemma_set_parents_models, level, models, node_value, pushed_sound, sound, sound_with,
    with_value, Interp, Valuation,
};
use crate::growth::{
    extends, lemma_add_extends, lemma_drop_extends, lemma_extends_refl, lemma_extends_trans,
    lemma_merge_extends, lemma_rekey_extends, lemma_set_parents_extends,
};
use crate::node::{
    entry_position, nodes_view, parents_view, position, Class, EClass, Enode, Id, Node,
};
use crate::tables::{
    class_entries, classes_get, classes_insert, classes_new, classes_take, idset_get, idset_insert,
    idset_items, idset_len, idset_new, memo_entries, memo_get, memo_insert, memo_new, memo_remove,
    Classes, Memo,
};
use crate::unionfind::{count_roots, merged_roots, UnionFind};

verus! {

/// An e-graph: a union-find over class ids, the hash-cons table, the classes
/// by representative, and the survivors of unions whose parents wait for
/// repair.
#[derive(Debug, Clone)]
pub struct EGraph {
    pub(crate) unionfind: UnionFind,
    pub(crate) memo: Memo,
    pub(crate) classes: Classes,
    pub(crate) dirty_unions: Vec<Id>,
}

impl View for EGraph {
    type V = Graph;

    closed spec fn view(&self) -> Graph {
        Graph {
            roots: self.unionfind.roots(),
            memo: memo_entries(self.memo),
            classes: class_entries(self.classes),
        }
    }
}

impl EGraph {
    /// The survivors of unions whose parents wait for repair, oldest first.
    pub closed spec fn dirty(&self) -> Seq<usize> {
        self.dirty_unions@
    }

    /// The number of classes.
    pub closed spec fn sets(&self) -> nat {
        self.unionfind.sets()
    }

    /// The union-find is a forest.
    pub closed spec fn forest_ok(&self) -> bool {
        self.unionfind.wf()
    }

    /// What holds of an e-graph between operations.
    pub open spec fn wf(&self) -> bool {
        self.forest_ok() && self@.inv(self.dirty()) && self@.parents_sound()
            && self@.members_distinct()
    }

    /// Whether `other` is the same e-graph, whatever its union-find has compressed.
    pub open spec fn same(&self, other: &EGraph) -> bool {
        self@ == other@ && self.dirty() == other.dirty() && self.sets() == other.sets()
    }

    /// The number of unions that have merged two classes.
    pub open spec fn merges(&self) -> int {
        self@.roots.len() - self.sets()
    }

    /// There are as many classes as representatives, and no more than ids.
    pub proof fn lemma_sets(&self)
        requires
            self.wf(),
        ensures
            self.sets() <= self@.roots.len(),
            self.sets() == count_roots(self@.roots, self@.roots.len() as int),
    {
        self.unionfind.lemma_roots();
    }

    /// The empty e-graph.
    pub fn new() -> (g: EGraph)
        ensures
            g.wf(),
            g@.roots.len() == 0,
            g@.memo == Map::<Node, usize>::empty(),
            g@.classes == Map::<usize, Class>::empty(),
            g.dirty().len() == 0,
            g.sets() == 0,
    {
        let g = EGraph {
            unionfind: UnionFind::new(),
            memo: memo_new(),
            classes: classes_new(),
            dirty_unions: Vec::new(),
        };
        proof {
            assert(g@.memo =~= Map::<Node, usize>::empty());
            assert(g@.classes =~= Map::<usize, Class>::empty());
            g.unionfind.lemma_roots();
            assert forall|n: Node| #[trigger] g@.memo.contains_key(n) implies g@.in_class(
                g@.find(g@.memo[n]),
                n,
            ) by {}
        }
        g
    }

    /// The number of ids that have been allocated.
    pub fn len(&self) -> (n: usize)
        ensures
            n == self@.roots.len(),
    {
        self.unionfind.len()
    }

    /// The representative of `id`; the union-find compresses the path to it.
    pub fn find_mut(&mut self, id: Id) -> (r: Id)
        requires
            old(self).wf(),
            id < old(self)@.roots.len(),
        ensures
            final(self).wf(),
            final(self).same(old(self)),
            r == old(self)@.find(id),
    {
        self.unionfind.find_mut(id)
    }

    /// The representative of `id`.
    pub fn find(self, id: Id) -> (r: Id)
        requires
            self.wf(),
            id < self@.roots.len(),
        ensures
            r == self@.find(id),
    {
        self.unionfind.find(id)
    }

    /// The representative of `id`, for a caller that only reads the e-graph.
    pub fn root(&self, id: Id) -> (r: Id)
        requires
            self.wf(),
            id < self@.roots.len(),
        ensures
            r == self@.find(id),
    {
        self.unionfind.find(id)
    }

    /// Replaces every argument of `term` by its representative, and returns a copy.
    pub fn canonicalize_args(&mut self, term: &mut Enode) -> (r: Enode)
        requires
            old(self).wf(),
            old(self)@.node_ok(old(term)@),
        ensures
            final(self).wf(),
            final(self).same(old(self)),
            final(term)@ == old(self)@.canon(old(term)@),
            r@ == final(term)@,
    {
        self.unionfind.canonicalize(term);
        term.copy()
    }

    /// The class of the e-node, if the e-graph holds it. The arguments of
    /// `enode` are replaced by their representatives.
    pub fn find_eclass(&mut self, enode: &mut Enode) -> (r: Option<Id>)
        requires
            old(self).wf(),
            old(self)@.node_ok(old(enode)@),
        ensures
            final(self).wf(),
            final(self).same(old(self)),
            final(enode)@ == old(self)@.canon(old(enode)@),
            r == old(self)@.lookup(old(enode)@),
    {
        self.unionfind.canonicalize(enode);
        match memo_get(&self.memo, enode) {
            Some(id) => Some(self.unionfind.find_mut(id)),
            None => None,
        }
    }

    /// The class of the e-node, which is created if the e-graph does not hold
    /// the node yet. The arguments of `enode` are replaced by their
    /// representatives.
    pub fn push_eclass(&mut self, enode: &mut Enode) -> (id: Id)
        requires
            old(self).wf(),
            old(self)@.node_ok(old(enode)@),
        ensures
            final(self).wf(),
            final(enode)@ == old(self)@.canon(old(enode)@),
            final(self).dirty() == old(self).dirty(),
            extends(old(self)@, final(self)@),
            id < final(self)@.roots.len(),
            old(self)@.roots.len() <= final(self)@.roots.len(),
            final(self).merges() == old(self).merges(),
            final(self)@.in_class(id, final(enode)@),
            final(self)@.find(id) == id,
            pushed_sound(old(self)@, final(self)@, id, final(enode)@),
            match old(self)@.lookup(old(enode)@) {
                Some(c) => id == c && final(self).same(old(self)),
                None => id == old(self)@.roots.len() && final(self)@ == added(
                    old(self)@,
                    final(enode)@,
                ) && final(self).sets() == old(self).sets() + 1 && old(self)@.roots.len()
                    < usize::MAX,
            },
    {
        let found = self.find_eclass(enode);
        if let Some(c) = found {
            proof {
                lemma_extends_refl(self@, self.dirty());
                assert(self@.memo.contains_key(enode@));
                assert(self@.roots[self@.memo[enode@] as int] <= self@.memo[enode@]);
                let g = self@;
                assert(pushed_sound(g, g, c, enode@)) by {
                    reveal(pushed_sound);
                    assert forall|val: Valuation, op: Interp| #[trigger]
                        models(g, val, op) implies models(
                        g,
                        with_value(val, c, node_value(val, op, enode@)),
                        op,
                    ) && agree(
                        val,
                        with_value(val, c, node_value(val, op, enode@)),
                        g.roots.len(),
                    ) by {
                        lemma_memo_value(g, self.dirty(), val, op, enode@);
                        lemma_root_value(g, val, g.memo[enode@]);
                        lemma_same_value(g, self.dirty(), val, op, c);
                    }
                }
            }
            return c;
        }
        let ghost g = self@;
        let ghost n = enode@;
        proof {
            lemma_canon(g, old(enode)@);
        }
        let id = self.unionfind.new_set();
        let mut j: usize = 0;
        while j < enode.args.len()
            invariant
                j <= enode.args@.len(),
                enode@ == n,
                g.ids_ok(old(self).dirty()),
                g.canonical(n),
                id == g.roots.len(),
                self.unionfind.wf(),
                self.unionfind.roots() == g.roots.push(id),
                self.unionfind.sets() == old(self).sets() + 1,
                memo_entries(self.memo) == g.memo,
                self.dirty_unions@ == old(self).dirty(),
                forall|k: usize| #[trigger]
                    class_entries(self.classes).contains_key(k) <==> g.classes.contains_key(k),
                forall|k: usize| #[trigger]
                    g.classes.contains_key(k) ==> class_entries(self.classes)[k].nodes
                        == g.classes[k].nodes && class_entries(self.classes)[k].parents
                        == g.classes[k].parents + Seq::new(
                        occurrences(n.args.subrange(0, j as int), k),
                        |x: int| (n, id),
                    ),
            decreases enode.args@.len() - j,
        {
            let x = enode.args[j];
            assert(g.is_root(n.args[j as int]));
            assert(g.classes.contains_key(x));
            let ghost before = class_entries(self.classes);
            let mut class = classes_take(&mut self.classes, x).unwrap();
            class.parents.push((enode.copy(), id));
            classes_insert(&mut self.classes, x, class);
            proof {
                let done = n.args.subrange(0, j as int);
                let next = n.args.subrange(0, j + 1);
                assert(next.drop_last() =~= done);
                assert(next.last() == x);
                assert forall|k: usize| #[trigger] g.classes.contains_key(k) implies class_entries(
                    self.classes,
                )[k].nodes == g.classes[k].nodes && class_entries(self.classes)[k].parents
                    == g.classes[k].parents + Seq::new(
                    occurrences(next, k),
                    |x: int| (n, id),
                ) by {
                    if k == x {
                        assert(class_entries(self.classes)[k].parents =~= before[k].parents.push(
                            (n, id),
                        ));
                        assert(before[k].parents.push((n, id)) =~= g.classes[k].parents
                            + Seq::new(occurrences(next, k), |x: int| (n, id)));
                    } else {
                        assert(class_entries(self.classes)[k] == before[k]);
                    }
                }
            }
            j += 1;
        }
        classes_insert(&mut self.classes, id, EClass::new(enode.copy()));
        memo_insert(&mut self.memo, enode.copy(), id);
        proof {
            assert(n.args.subrange(0, n.args.len() as int) =~= n.args);
            let target = added(g, n);
            assert(self@.classes =~= target.classes) by {
                assert forall|k: usize| self@.classes.contains_key(k) implies #[trigger] self@.classes[k]
                    == target.classes[k] by {
                    if k != id {
                        assert(g.classes.contains_key(k));
                    }
                }
            }
            assert(self@ == target);
            lemma_add(g, old(self).dirty(), n);
            lemma_add_extends(g, old(self).dirty(), n);
            lemma_add_sound(g, old(self).dirty(), n);
            assert(!g.classes.contains_key(id)) by {
                assert(!g.is_root(id));
            }
            lemma_added_distinct(g, n);
            assert(self@.has_node(id, 0) && self@.node_at(id, 0) == n);
            assert(pushed_sound(g, self@, id, n)) by {
                reveal(pushed_sound);
                assert forall|val: Valuation, op: Interp| #[trigger]
                    models(g, val, op) implies models(
                    self@,
                    with_value(val, id, node_value(val, op, n)),
                    op,
                ) && agree(val, with_value(val, id, node_value(val, op, n)), g.roots.len()) by {
                    lemma_add_models(g, old(self).dirty(), val, op, n);
                }
            }
        }
        id
    }
}

/// The graph in which class `c` holds the nodes `done`, followed by those of
/// `rest` from place `i` on.
pub open spec fn staged(
    roots: Seq<usize>,
    memo: Map<Node, usize>,
    others: Map<usize, Class>,
    c: usize,
    done: Seq<Enode>,
    rest: Seq<Enode>,
    i: int,
    parents: Seq<(Node, usize)>,
) -> Graph {
    Graph {
        roots,
        memo,
        classes: others.insert(
            c,
            Class {
                nodes: nodes_view(done) + nodes_view(rest).subrange(i, rest.len() as int),
                parents,
            },
        ),
    }
}

/// The pairs of `c` with each of `hits`.
pub open spec fn paired(c: usize, hits: Seq<usize>) -> Seq<(usize, usize)> {
    Seq::new(hits.len(), |h: int| (c, hits[h]))
}

impl EGraph {
    /// Brings every member of class `c` into canonical form, in the class
    /// and in the hash-cons table, and drops members that have become equal
    /// to an earlier one. The table sends every member to `c` afterwards.
    /// Returns the ids that the table held for a member in another class.
    pub(crate) fn recanon_class(&mut self, c: Id, Ghost(marks): Ghost<Seq<usize>>) -> (hits: Vec<
        Id,
    >)
        requires
            old(self).forest_ok(),
            old(self)@.inv(marks),
            old(self)@.parents_sound(),
            old(self)@.distinct_except(c),
            old(self)@.is_root(c),
        ensures
            final(self).forest_ok(),
            final(self)@.inv(marks),
            final(self)@.parents_sound(),
            final(self)@.members_distinct(),
            final(self)@ == recanoned(old(self)@, c),
            keeps(old(self)@, final(self)@, paired(c, hits@)),
            sound(old(self)@, final(self)@, paired(c, hits@)),
            final(self).dirty() == old(self).dirty(),
            final(self).sets() == old(self).sets(),
            final(self)@.roots == old(self)@.roots,
            extends(old(self)@, final(self)@),
            forall|k: usize| #[trigger]
                final(self)@.classes.contains_key(k) <==> old(self)@.classes.contains_key(k),
            forall|k: usize|
                k != c && #[trigger] old(self)@.classes.contains_key(k) ==> final(self)@.classes[k]
                    == old(self)@.classes[k],
            final(self)@.classes[c].parents == old(self)@.classes[c].parents,
            forall|n: Node|
                #[trigger] old(self)@.memo.contains_key(n) && old(self)@.canonical(n)
                    ==> final(self)@.memo.contains_key(n) && (hits@.len() == 0 ==> final(self)@.find(
                    final(self)@.memo[n],
                ) == old(self)@.find(old(self)@.memo[n])),
            final(self)@.class_done(c),
            forall|x: int| #[trigger]
                final(self)@.has_node(c, x) ==> final(self)@.memo[final(self)@.node_at(c, x)] == c,
            forall|h: int|
                0 <= h < hits@.len() ==> (#[trigger] hits@[h]) < old(self)@.roots.len()
                    && old(self)@.find(hits@[h]) != c,
    {
        let ghost g0 = self@;
        let class = classes_take(&mut self.classes, c).unwrap();
        let ghost others = class_entries(self.classes);
        let ghost pv = class@.parents;
        let nodes = class.nodes;
        let parents = class.parents;
        let mut done: Vec<Enode> = Vec::new();
        let mut hits: Vec<Id> = Vec::new();
        let mut i: usize = 0;
        proof {
            let v = staged(g0.roots, g0.memo, others, c, done@, nodes@, 0, pv);
            assert(nodes_view(done@) + nodes_view(nodes@).subrange(0, nodes@.len() as int)
                =~= g0.classes[c].nodes);
            assert(v.classes =~= g0.classes);
            assert(v == g0);
            lemma_extends_refl(g0, marks);
            assert(paired(c, hits@) =~= Seq::empty());
        }
        while i < nodes.len()
            invariant
                i <= nodes@.len(),
                self.unionfind.wf(),
                self.unionfind.roots() == g0.roots,
                self.unionfind.sets() == old(self).sets(),
                self.dirty_unions@ == old(self).dirty(),
                class_entries(self.classes) == others,
                others == g0.classes.remove(c),
                g0.classes.contains_key(c),
                g0.is_root(c),
                parents_view(parents@) == pv,
                pv == g0.classes[c].parents,
                nodes_view(nodes@) == g0.classes[c].nodes,
                nodes_view(done@) == fold_nodes(g0, nodes_view(nodes@), i as nat),
                memo_entries(self.memo) == fold_memo(g0, c, nodes_view(nodes@), i as nat),
                staged(
                    g0.roots,
                    memo_entries(self.memo),
                    others,
                    c,
                    done@,
                    nodes@,
                    i as int,
                    pv,
                ).inv(marks),
                staged(
                    g0.roots,
                    memo_entries(self.memo),
                    others,
                    c,
                    done@,
                    nodes@,
                    i as int,
                    pv,
                ).parents_sound(),
                keeps(
                    g0,
                    staged(
                        g0.roots,
                        memo_entries(self.memo),
                        others,
                        c,
                        done@,
                        nodes@,
                        i as int,
                        pv,
                    ),
                    paired(c, hits@),
                ),
                sound(
                    g0,
                    staged(
                        g0.roots,
                        memo_entries(self.memo),
                        others,
                        c,
                        done@,
                        nodes@,
                        i as int,
                        pv,
                    ),
                    paired(c, hits@),
                ),
                g0.ids_ok(marks),
                extends(
                    g0,
                    staged(
                        g0.roots,
                        memo_entries(self.memo),
                        others,
                        c,
                        done@,
                        nodes@,
                        i as int,
                        pv,
                    ),
                ),
                forall|n: Node|
                    #[trigger] g0.memo.contains_key(n) && g0.canonical(n) ==> memo_entries(
                        self.memo,
                    ).contains_key(n) && (hits@.len() == 0 ==> g0.roots[memo_entries(
                        self.memo,
                    )[n] as int] == g0.roots[g0.memo[n] as int]),
                forall|x: int| 0 <= x < done@.len() ==> g0.canonical((#[trigger] done@[x])@),
                forall|x: int|
                    0 <= x < done@.len() ==> memo_entries(self.memo).contains_key(
                        (#[trigger] done@[x])@,
                    ) && memo_entries(self.memo)[done@[x]@] == c,
                forall|h: int|
                    0 <= h < hits@.len() ==> (#[trigger] hits@[h]) < g0.roots.len()
                        && g0.roots[hits@[h] as int] != c,
            decreases nodes@.len() - i,
        {
            let ghost memo0 = memo_entries(self.memo);
            let ghost v0 = staged(g0.roots, memo0, others, c, done@, nodes@, i as int, pv);
            let ghost d = done@.len() as int;
            let ghost rest = nodes_view(nodes@).subrange(i + 1, nodes@.len() as int);
            let ghost hits0 = hits@;
            let t = &nodes[i];
            let mut tc = t.copy();
            proof {
                assert(v0.has_node(c, d));
                assert(v0.node_at(c, d) == t@);
                assert(v0.node_ok(t@));
                lemma_canon(v0, t@);
            }
            self.unionfind.canonicalize(&mut tc);
            if !t.same(&tc) {
                memo_remove(&mut self.memo, t);
            }
            if let Some(o) = memo_get(&self.memo, &tc) {
                assert(v0.memo.contains_key(tc@) && v0.memo[tc@] == o);
                let r = self.unionfind.find(o);
                if r != c {
                    hits.push(o);
                }
            }
            memo_insert(&mut self.memo, tc.copy(), c);
            let ghost v1 = rekeyed(v0, c, d);
            let ghost mid = nodes_view(done@).push(tc@) + rest;
            proof {
                lemma_rekey(v0, marks, c, d);
                lemma_rekey_extends(v0, marks, c, d);
                lemma_extends_trans(g0, v0, v1, marks, marks);
                assert(v0.classes[c].nodes.update(d, tc@) =~= mid);
                assert(v1.classes =~= others.insert(c, Class { nodes: mid, parents: pv }));
                assert(v1.memo == memo_entries(self.memo));
                lemma_rekey_sound(v0, marks, c, d);
                assert forall|base: Graph, r: Rel|
                    closed_over(base, r) && #[trigger] backed(base, r, g0) implies backed(
                    base,
                    r,
                    v1,
                ) && justified(r, paired(c, hits@)) by {
                    assert(backed(base, r, v0) && justified(r, paired(c, hits0)));
                    lemma_rekey_backed(base, r, v0, marks, c, d);
                    if hits@.len() > hits0.len() {
                        lemma_hit_memo(base, r, v0, marks, c, d);
                    }
                    assert forall|h: int| 0 <= h < paired(c, hits@).len() implies r(
                        (#[trigger] paired(c, hits@)[h]).0,
                        paired(c, hits@)[h].1,
                    ) by {
                        if h < hits0.len() {
                            assert(paired(c, hits0)[h] == paired(c, hits@)[h]);
                        }
                    }
                }
                assert(keeps(g0, v1, paired(c, hits@)));
                assert forall|val: Valuation, op: Interp| #[trigger]
                    models(g0, val, op) implies models(v1, val, op) && level(
                    val,
                    paired(c, hits@),
                ) by {
                    assert(models(v0, val, op) && level(val, paired(c, hits0)));
                    lemma_rekey_models(v0, marks, val, op, c, d);
                    if hits@.len() > hits0.len() {
                        lemma_hit_value(v0, marks, val, op, c, d);
                    }
                    assert forall|h: int| 0 <= h < paired(c, hits@).len() implies val(
                        (#[trigger] paired(c, hits@)[h]).0,
                    ) == val(paired(c, hits@)[h].1) by {
                        if h < hits0.len() {
                            assert(paired(c, hits0)[h] == paired(c, hits@)[h]);
                        }
                    }
                }
                assert(sound(g0, v1, paired(c, hits@)));
            }
            proof {
                let prev = fold_nodes(g0, nodes_view(nodes@), i as nat);
                assert(nodes_view(nodes@)[i as int] == t@);
                assert(v0.canon(t@) == g0.canon(t@));
                if prev.contains(tc@) {
                    let x = choose|x: int| 0 <= x < prev.len() && prev[x] == tc@;
                    assert(done@[x]@ == tc@);
                }
            }
            match position(&done, &tc) {
                Some(i0) => {
                    proof {
                        assert(nodes_view(done@)[i0 as int] == tc@);
                        assert(v1.has_node(c, d));
                        assert(v1.has_node(c, i0 as int));
                        assert(v1.node_at(c, i0 as int) == tc@);
                        lemma_drop(v1, marks, c, d, i0 as int);
                        let v2 = dropped(v1, c, d);
                        lemma_drop_extends(v1, marks, c, d, i0 as int);
                        lemma_extends_trans(g0, v1, v2, marks, marks);
                        lemma_drop_sound(v1, marks, c, d, i0 as int);
                        assert forall|base: Graph, r: Rel|
                            closed_over(base, r) && #[trigger] backed(base, r, g0) implies backed(
                            base,
                            r,
                            v2,
                        ) && justified(r, paired(c, hits@)) by {
                            assert(backed(base, r, v1));
                            lemma_drop_backed(base, r, v1, c, d);
                        }
                        assert forall|val: Valuation, op: Interp| #[trigger]
                            models(g0, val, op) implies models(v2, val, op) && level(
                            val,
                            paired(c, hits@),
                        ) by {
                            assert(models(v1, val, op));
                            lemma_drop_models(v1, val, op, c, d);
                        }
                        assert(mid.remove(d) =~= nodes_view(done@) + rest);
                        assert(v2.classes =~= others.insert(
                            c,
                            Class { nodes: nodes_view(done@) + rest, parents: pv },
                        ));
                        assert(v2 == staged(
                            g0.roots,
                            memo_entries(self.memo),
                            others,
                            c,
                            done@,
                            nodes@,
                            i + 1,
                            pv,
                        ));
                    }
                },
                None => {
                    proof {
                        let prev = nodes_view(done@);
                        if prev.contains(tc@) {
                            let x = choose|x: int| 0 <= x < prev.len() && prev[x] == tc@;
                            assert(done@[x]@ == tc@);
                        }
                    }
                    done.push(tc);
                    proof {
                        assert(nodes_view(done@) =~= nodes_view(done@.drop_last()).push(tc@));
                        assert(nodes_view(done@) + rest =~= mid);
                        assert(v1 == staged(
                            g0.roots,
                            memo_entries(self.memo),
                            others,
                            c,
                            done@,
                            nodes@,
                            i + 1,
                            pv,
                        ));
                    }
                },
            }
            i += 1;
        }
        proof {
            assert(nodes_view(done@) + nodes_view(nodes@).subrange(i as int, nodes@.len() as int)
                =~= nodes_view(done@));
        }
        classes_insert(&mut self.classes, c, EClass { nodes: done, parents });
        proof {
            let v = staged(
                g0.roots,
                memo_entries(self.memo),
                others,
                c,
                done@,
                nodes@,
                i as int,
                pv,
            );
            assert(self@.classes =~= v.classes);
            assert(self@ == v);
            assert(v.classes =~= recanoned(g0, c).classes);
            assert(self@ == recanoned(g0, c));
            lemma_recanoned_distinct(g0, c);
            assert forall|k: usize| #[trigger]
                self@.classes.contains_key(k) <==> g0.classes.contains_key(k) by {}
            assert forall|x: int| #[trigger] self@.has_node(c, x) implies self@.canonical(
                self@.node_at(c, x),
            ) && self@.keyed(self@.node_at(c, x), c) && self@.memo[self@.node_at(c, x)] == c by {
                assert(self@.node_at(c, x) == done@[x]@);
            }
        }
        hits
    }

    /// Merges the classes of `id1` and `id2`, where `extra` names classes that
    /// wait for repair beside the dirty ones.
    pub(crate) fn union_with(&mut self, id1: Id, id2: Id, Ghost(extra): Ghost<Seq<usize>>) -> (r:
        Option<Id>)
        requires
            old(self).forest_ok(),
            old(self)@.inv(old(self).dirty() + extra),
            old(self)@.parents_sound(),
            old(self)@.members_distinct(),
            id1 < old(self)@.roots.len(),
            id2 < old(self)@.roots.len(),
        ensures
            final(self).forest_ok(),
            final(self)@.inv(final(self).dirty() + extra),
            final(self)@.parents_sound(),
            final(self)@.members_distinct(),
            carries(old(self)@, final(self)@, id1, id2),
            sound_with(old(self)@, final(self)@, id1, id2),
            final(self)@.roots.len() == old(self)@.roots.len(),
            extends(old(self)@, final(self)@),
            final(self)@.find(id1) == final(self)@.find(id2),
            old(self)@.find(id1) == old(self)@.find(id2) ==> r.is_none() && final(self).same(
                old(self),
            ),
            old(self)@.find(id1) != old(self)@.find(id2) ==> r == Some(
                survivor(old(self)@, id1, id2),
            ) && final(self)@.roots == merged_roots(
                old(self)@.roots,
                survivor(old(self)@, id1, id2),
                absorbed(old(self)@, id1, id2),
            ) && final(self).dirty() == old(self).dirty().push(survivor(old(self)@, id1, id2))
                && final(self).sets() + 1 == old(self).sets() && final(self)@ == recanoned(
                merged(old(self)@, survivor(old(self)@, id1, id2), absorbed(old(self)@, id1, id2)),
                survivor(old(self)@, id1, id2),
            ) && final(self)@.class_done(survivor(old(self)@, id1, id2)),
    {
        let ghost g = self@;
        let ghost marks = self.dirty() + extra;
        let a = self.unionfind.find_mut(id1);
        let b = self.unionfind.find_mut(id2);
        if a == b {
            proof {
                lemma_extends_refl(g, marks);
            }
            return None;
        }
        let s = if a < b {
            a
        } else {
            b
        };
        let f = if a < b {
            b
        } else {
            a
        };
        proof {
            assert(g.roots[id1 as int] <= id1);
            assert(g.roots[id2 as int] <= id2);
            assert(g.is_root(s) && g.is_root(f));
            assert(g.classes.contains_key(s) && g.classes.contains_key(f));
        }
        let kept = self.unionfind.union(a, b);
        assert(kept == s);
        let mut from = classes_take(&mut self.classes, f).unwrap();
        let mut to = classes_take(&mut self.classes, s).unwrap();
        let ghost to0 = to@;
        let ghost from0 = from@;
        to.nodes.append(&mut from.nodes);
        to.parents.append(&mut from.parents);
        proof {
            assert(to@.nodes =~= to0.nodes + from0.nodes);
            assert(to@.parents =~= to0.parents + from0.parents);
        }
        classes_insert(&mut self.classes, s, to);
        self.dirty_unions.push(s);
        proof {
            let target = merged(g, s, f);
            assert(self@.roots == target.roots);
            assert(self@.classes =~= target.classes);
            assert(self@ == target);
            lemma_merge(g, marks, s, f);
            let after = self.dirty() + extra;
            assert forall|d: int| 0 <= d < after.len() implies (#[trigger] after[d])
                < self@.roots.len() by {
                if d < self.dirty().len() - 1 {
                    assert(after[d] == marks[d]);
                } else if d >= self.dirty().len() {
                    assert(after[d] == marks[d - 1]);
                }
            }
            let before = marks.push(s);
            assert forall|d: int| 0 <= d < before.len() implies self@.pending(
                after,
                self@.find(#[trigger] before[d]),
            ) by {
                let d2 = if d < self.dirty().len() - 1 {
                    d
                } else if d < marks.len() {
                    d + 1
                } else {
                    self.dirty().len() - 1
                };
                assert(after[d2] == before[d]);
            }
            lemma_remark(self@, before, after);
            lemma_merge_extends(g, marks, s, f);
            lemma_merge_sound(g, marks, s, f);
            lemma_merged_distinct(g, s, f);
        }
        let ghost mid = self@;
        // What the table held for a member in another class needs no record
        // here: such a member has an argument in a class that waits for
        // repair, and the repair of that class finds the two among its parents.
        let _ = self.recanon_class(s, Ghost(self.dirty() + extra));
        proof {
            lemma_extends_trans(g, mid, self@, marks, self.dirty() + extra);
            assert forall|base: Graph, r: Rel|
                closed_over(base, r) && #[trigger] backed(base, r, g) && r(id1, id2) implies backed(
                base,
                r,
                self@,
            ) by {
                let len = base.roots.len();
                lemma_includes(g, r, id1);
                lemma_includes(g, r, id2);
                lemma_sym(r, len, id1, a);
                lemma_trans(r, len, a, id1, id2);
                lemma_trans(r, len, a, id2, b);
                lemma_sym(r, len, a, b);
                lemma_merge_backed(base, r, g, marks, s, f);
                assert(backed(base, r, mid));
            }
            assert forall|val: Valuation, op: Interp|
                #[trigger] models(g, val, op) && val(id1) == val(id2) implies models(
                self@,
                val,
                op,
            ) by {
                lemma_root_value(g, val, id1);
                lemma_root_value(g, val, id2);
                lemma_merge_models(g, marks, val, op, s, f);
                assert(models(mid, val, op));
            }
        }
        Some(s)
    }

    /// Merges the classes of `id1` and `id2`. Returns the surviving
    /// representative, which is the smaller of the two, or `None` where the
    /// two ids were in one class already. Every member of the merged class
    /// is in canonical form afterwards, and the hash-cons table sends it to
    /// the survivor, which waits for repair.
    pub fn union(&mut self, id1: Id, id2: Id) -> (r: Option<Id>)
        requires
            old(self).wf(),
            id1 < old(self)@.roots.len(),
            id2 < old(self)@.roots.len(),
        ensures
            final(self).wf(),
            final(self)@.roots.len() == old(self)@.roots.len(),
            extends(old(self)@, final(self)@),
            sound_with(old(self)@, final(self)@, id1, id2),
            final(self)@.find(id1) == final(self)@.find(id2),
            old(self)@.find(id1) == old(self)@.find(id2) ==> r.is_none() && final(self).same(
                old(self),
            ),
            old(self)@.find(id1) != old(self)@.find(id2) ==> r == Some(
                survivor(old(self)@, id1, id2),
            ) && final(self)@.roots == merged_roots(
                old(self)@.roots,
                survivor(old(self)@, id1, id2),
                absorbed(old(self)@, id1, id2),
            ) && final(self).dirty() == old(self).dirty().push(survivor(old(self)@, id1, id2))
                && final(self).sets() + 1 == old(self).sets() && final(self)@ == recanoned(
                merged(old(self)@, survivor(old(self)@, id1, id2), absorbed(old(self)@, id1, id2)),
                survivor(old(self)@, id1, id2),
            ) && final(self)@.class_done(survivor(old(self)@, id1, id2)),
    {
        assert(self.dirty() + Seq::<usize>::empty() =~= self.dirty());
        let r = self.union_with(id1, id2, Ghost(Seq::empty()));
        assert(self.dirty() + Seq::<usize>::empty() =~= self.dirty());
        r
    }

    /// Brings the nodes that have class `id` among their arguments into
    /// canonical form, merges the classes that are found to hold congruent
    /// nodes, and replaces the parent list of the class by its entries in
    /// canonical form, each once. Returns that list. Where no class is
    /// merged, it is the parent list of the class afterwards and every
    /// class that it names is done; else the class waits for repair again.
    pub(crate) fn repair(&mut self, id: Id, Ghost(extra): Ghost<Seq<usize>>) -> (list: Ghost<
        Seq<(Node, usize)>,
    >)
        requires
            old(self).forest_ok(),
            old(self)@.inv(old(self).dirty() + extra.push(id)),
            old(self)@.parents_sound(),
            old(self)@.members_distinct(),
            old(self)@.is_root(id),
        ensures
            final(self).forest_ok(),
            final(self)@.inv(final(self).dirty() + extra),
            final(self)@.parents_sound(),
            final(self)@.members_distinct(),
            keeps(old(self)@, final(self)@, Seq::empty()),
            sound(old(self)@, final(self)@, Seq::empty()),
            final(self)@.roots.len() == old(self)@.roots.len(),
            extends(old(self)@, final(self)@),
            final(self).sets() <= old(self).sets(),
            final(self).sets() < old(self).sets() || (final(self).dirty() == old(self).dirty()
                && final(self)@.roots == old(self)@.roots),
            forall|x: int|
                0 <= x < list@.len() ==> old(self)@.canonical((#[trigger] list@[x]).0) && old(self)@.is_root(list@[x].1),
            forall|x: int, y: int|
                0 <= x < list@.len() && 0 <= y < list@.len() && #[trigger] list@[x]
                    == #[trigger] list@[y] ==> x == y,
            forall|l: int| #[trigger]
                old(self)@.has_parent(id, l) ==> covers(
                    old(self)@,
                    list@,
                    old(self)@.parent_at(id, l),
                ),
            forall|x: int, y: int|
                0 <= x < list@.len() && 0 <= y < list@.len() && (#[trigger] list@[x]).0
                    == (#[trigger] list@[y]).0 ==> final(self)@.find(list@[x].1) == final(self)@.find(list@[y].1),
            final(self).sets() == old(self).sets() ==> final(self)@.classes[id].parents == list@
                && forall|x: int|
                0 <= x < list@.len() ==> final(self)@.class_done((#[trigger] list@[x]).1),
            final(self).sets() < old(self).sets() ==> final(self).dirty().len() > 0 && final(self).dirty().last() == id,
    {
        let ghost g = self@;
        let ghost m = self.dirty() + extra.push(id);
        assert(g.classes.contains_key(id));
        let class = classes_take(&mut self.classes, id).unwrap();
        let ghost others = class_entries(self.classes);
        let ghost nv = class@.nodes;
        let nodes = class.nodes;
        let parents = class.parents;
        let mut fresh: Vec<(Enode, Id)> = Vec::new();
        let mut owners: Vec<Id> = Vec::new();
        let mut seen = memo_new();
        let mut hits: Vec<(Id, Id)> = Vec::new();
        let mut l: usize = 0;
        while l < parents.len()
            invariant
                l <= parents@.len(),
                self.unionfind.wf(),
                self.unionfind.roots() == g.roots,
                self.unionfind.sets() == old(self).sets(),
                self.dirty_unions@ == old(self).dirty(),
                memo_entries(self.memo) == g.memo,
                class_entries(self.classes) == others,
                nodes_view(nodes@) == nv,
                g.inv(m),
                g.parents_sound(),
                g.members_distinct(),
                finds(g, parents_view(fresh@), hits@),
                sound(g, g, hits@),
                forall|x: int|
                    0 <= x < fresh@.len() ==> g.holds((#[trigger] fresh@[x]).1, fresh@[x].0@),
                forall|x: int|
                    0 <= x < fresh@.len() ==> g.canonical((#[trigger] fresh@[x]).0@) && memo_entries(
                        seen,
                    ).contains_key(fresh@[x].0@) && pair_noted(
                        hits@,
                        fresh@[x].1,
                        memo_entries(seen)[fresh@[x].0@],
                    ),
                forall|x: int, y: int|
                    0 <= x < fresh@.len() && 0 <= y < fresh@.len() && (#[trigger] fresh@[x]).0@
                        == (#[trigger] fresh@[y]).0@ && fresh@[x].1 == fresh@[y].1 ==> x == y,
                g.classes.contains_key(id),
                parents_view(parents@) == g.classes[id].parents,
                owners@.len() == fresh@.len(),
                forall|x: int|
                    0 <= x < fresh@.len() ==> g.node_ok((#[trigger] fresh@[x]).0@) && g.is_root(
                        fresh@[x].1,
                    ) && owners@[x] == fresh@[x].1,
                forall|x: int|
                    0 <= x < l ==> covers(
                        g,
                        parents_view(fresh@),
                        #[trigger] parents_view(parents@)[x],
                    ),
                forall|n: Node| #[trigger]
                    memo_entries(seen).contains_key(n) ==> exists|x: int|
                        0 <= x < fresh@.len() && (#[trigger] fresh@[x]).0@ == n && fresh@[x].1
                            == memo_entries(seen)[n],
                forall|h: int|
                    0 <= h < hits@.len() ==> (#[trigger] hits@[h]).0 < g.roots.len() && hits@[h].1
                        < g.roots.len() && g.find(hits@[h].0) != g.find(hits@[h].1),
            decreases parents@.len() - l,
        {
            let ghost e = parents_view(parents@)[l as int];
            let ghost fresh0 = fresh@;
            let ghost hits0 = hits@;
            proof {
                assert(g.has_parent(id, l as int));
                assert(g.parent_at(id, l as int) == e);
                assert(g.node_ok(e.0));
                lemma_canon(g, e.0);
            }
            let mut pc = parents[l].0.copy();
            self.unionfind.canonicalize(&mut pc);
            let k = self.unionfind.find_mut(parents[l].1);
            proof {
                assert(g.roots[e.1 as int] <= e.1);
                assert(g.is_root(k));
            }
            let known = memo_get(&seen, &pc);
            match known {
                None => {
                    memo_insert(&mut seen, pc.copy(), k);
                    fresh.push((pc, k));
                    owners.push(k);
                },
                Some(k2) => {
                    if k2 != k {
                        hits.push((k, k2));
                        if entry_position(&fresh, &pc, k).is_none() {
                            fresh.push((pc, k));
                            owners.push(k);
                        }
                    }
                },
            }
            proof {
                // the entries that were there stand where they stood
                assert forall|x: int| 0 <= x < fresh0.len() implies parents_view(fresh@)[x]
                    == parents_view(fresh0)[x] by {}
                assert forall|x: int| 0 <= x < l implies covers(
                    g,
                    parents_view(fresh@),
                    #[trigger] parents_view(parents@)[x],
                ) by {
                    let e0 = parents_view(parents@)[x];
                    assert(covers(g, parents_view(fresh0), e0));
                    let y = choose|y: int|
                        0 <= y < parents_view(fresh0).len() && g.find(
                            (#[trigger] parents_view(fresh0)[y]).1,
                        ) == g.find(e0.1) && g.congruent(parents_view(fresh0)[y].0, e0.0);
                    assert(parents_view(fresh@)[y] == parents_view(fresh0)[y]);
                }
                // the entry at hand is stood for
                if fresh@.len() > fresh0.len() {
                    let y = fresh0.len() as int;
                    assert(parents_view(fresh@)[y] == (pc@, k));
                } else {
                    let y = choose|y: int|
                        0 <= y < fresh0.len() && (#[trigger] fresh0[y]).0@ == pc@ && fresh0[y].1
                            == k;
                    assert(parents_view(fresh@)[y] == (pc@, k));
                }
                assert(covers(g, parents_view(fresh@), e));
                assert forall|n: Node| #[trigger]
                    memo_entries(seen).contains_key(n) implies exists|x: int|
                    0 <= x < fresh@.len() && (#[trigger] fresh@[x]).0@ == n && fresh@[x].1
                        == memo_entries(seen)[n] by {
                    if known.is_none() && n == pc@ {
                        assert(fresh@[fresh0.len() as int].0@ == n);
                    } else {
                        let x = choose|x: int|
                            0 <= x < fresh0.len() && (#[trigger] fresh0[x]).0@ == n && fresh0[x].1
                                == memo_entries(seen)[n];
                        assert(fresh@[x] == fresh0[x]);
                    }
                }
                if let Some(k2) = known {
                    let x = choose|x: int|
                        0 <= x < fresh0.len() && (#[trigger] fresh0[x]).0@ == pc@ && fresh0[x].1
                            == k2;
                    assert(g.is_root(k2));
                }
                // every entry is noted with the owner that the table holds for its node
                assert forall|x: int| 0 <= x < fresh@.len() implies pair_noted(
                    hits@,
                    (#[trigger] fresh@[x]).1,
                    memo_entries(seen)[fresh@[x].0@],
                ) by {
                    if x < fresh0.len() {
                        assert(fresh@[x] == fresh0[x]);
                        let o = memo_entries(seen)[fresh0[x].0@];
                        if fresh0[x].1 != o {
                            let z = choose|z: int| 0 <= z < hits0.len() && hits0[z] == (fresh0[x].1, o);
                            assert(hits@[z] == hits0[z]);
                        }
                    } else if known.is_some() {
                        assert(hits@[hits0.len() as int] == (k, known.unwrap()));
                    }
                }
                // the new entry is sound
                assert(g.holds(g.find(e.1), e.0));
                lemma_canon_sound(g, m, e.0, e.1);
                assert(g.holds(k, pc@));
                assert forall|x: int| 0 <= x < fresh@.len() implies g.holds(
                    (#[trigger] fresh@[x]).1,
                    fresh@[x].0@,
                ) by {
                    if x < fresh0.len() {
                        assert(fresh@[x] == fresh0[x]);
                    }
                }
                assert forall|val: Valuation, op: Interp| #[trigger]
                    models(g, val, op) implies models(g, val, op) && level(val, hits@) by {
                    assert(level(val, hits0));
                    if hits@.len() > hits0.len() {
                        let k2 = known.unwrap();
                        let x = choose|x: int|
                            0 <= x < fresh0.len() && (#[trigger] fresh0[x]).0@ == pc@
                                && fresh0[x].1 == k2;
                        assert(g.holds(fresh0[x].1, fresh0[x].0@));
                        lemma_canon(g, e.0);
                        lemma_held_value(g, m, val, op, k, pc@);
                        lemma_held_value(g, m, val, op, k2, pc@);
                        assert(hits@[hits0.len() as int] == (k, k2));
                    }
                    assert forall|h: int| 0 <= h < hits@.len() implies val(
                        (#[trigger] hits@[h]).0,
                    ) == val(hits@[h].1) by {
                        if h < hits0.len() {
                            assert(hits@[h] == hits0[h]);
                        }
                    }
                }
                // and justified, with the pair that it may have brought
                assert forall|base: Graph, r: Rel|
                    closed_over(base, r) && #[trigger] backed(base, r, g) implies entries_backed(
                    base,
                    r,
                    parents_view(fresh@),
                ) && justified(r, hits@) by {
                    assert(entries_backed(base, r, parents_view(fresh0)) && justified(r, hits0));
                    assert(backed_node(base, r, e.0, e.1));
                    lemma_entry_backed(base, r, g, m, e.0, e.1);
                    assert forall|x: int| 0 <= x < parents_view(fresh@).len() implies backed_node(
                        base,
                        r,
                        (#[trigger] parents_view(fresh@)[x]).0,
                        parents_view(fresh@)[x].1,
                    ) by {
                        if x < fresh0.len() {
                            assert(parents_view(fresh@)[x] == parents_view(fresh0)[x]);
                        }
                    }
                    if hits@.len() > hits0.len() {
                        let k2 = known.unwrap();
                        let x = choose|x: int|
                            0 <= x < fresh0.len() && (#[trigger] fresh0[x]).0@ == pc@
                                && fresh0[x].1 == k2;
                        assert(parents_view(fresh0)[x] == (pc@, k2));
                        assert(backed_node(base, r, pc@, k2));
                        lemma_canon(g, e.0);
                        lemma_alike_refl(r, base.roots.len(), pc@);
                        lemma_backed_alike(base, r, pc@, k, pc@, k2);
                        assert(hits@[hits0.len() as int] == (k, k2));
                    }
                    assert forall|h: int| 0 <= h < hits@.len() implies r(
                        (#[trigger] hits@[h]).0,
                        hits@[h].1,
                    ) by {
                        if h < hits0.len() {
                            assert(hits@[h] == hits0[h]);
                        }
                    }
                }
            }
            l += 1;
        }
        let ghost fv = parents_view(fresh@);
        let ghost table = memo_entries(seen);
        proof {
            assert forall|x: int, y: int|
                0 <= x < fv.len() && 0 <= y < fv.len() && #[trigger] fv[x]
                    == #[trigger] fv[y] implies x == y by {
                assert(fresh@[x].0@ == fresh@[y].0@ && fresh@[x].1 == fresh@[y].1);
            }
            assert forall|x: int| 0 <= x < fv.len() implies g.canonical((#[trigger] fv[x]).0)
                && g.is_root(fv[x].1) && table.contains_key(fv[x].0) && pair_noted(
                hits@,
                fv[x].1,
                table[fv[x].0],
            ) by {
                assert(g.canonical(fresh@[x].0@));
            }
            assert(all_noted(hits@, fv, table));
        }
        classes_insert(&mut self.classes, id, EClass { nodes, parents: fresh });
        proof {
            assert forall|x: int| #[trigger] g.has_parent(id, x) implies covers(
                g,
                fv,
                g.parent_at(id, x),
            ) by {
                assert(g.parent_at(id, x) == parents_view(parents@)[x]);
            }
            assert forall|x: int| 0 <= x < fv.len() implies g.node_ok((#[trigger] fv[x]).0)
                && fv[x].1 < g.roots.len() by {
                assert(g.node_ok(fresh@[x].0@));
            }
            lemma_set_parents(g, m, id, fv);
            lemma_set_parents_extends(g, m, id, fv);
            assert(self@.classes =~= with_parents(g, id, fv).classes);
            assert(self@ == with_parents(g, id, fv));
            assert forall|x: int| 0 <= x < fv.len() implies g.node_ok((#[trigger] fv[x]).0)
                && fv[x].1 < g.roots.len() && g.holds(g.find(fv[x].1), fv[x].0) by {
                assert(g.is_root(fresh@[x].1));
                assert(g.holds(fresh@[x].1, fresh@[x].0@));
            }
            lemma_set_parents_sound(g, m, id, fv);
            lemma_with_parents_distinct(g, id, fv);
            assert forall|base: Graph, r: Rel|
                closed_over(base, r) && #[trigger] backed(base, r, g) implies backed(
                base,
                r,
                self@,
            ) && justified(r, hits@) by {
                assert(entries_backed(base, r, fv));
                lemma_set_parents_backed(base, r, g, id, fv);
            }
            assert(keeps(g, self@, hits@));
            assert forall|val: Valuation, op: Interp| #[trigger]
                models(g, val, op) implies models(self@, val, op) && level(val, hits@) by {
                lemma_set_parents_models(g, val, op, id, fv);
            }
            assert(sound(g, self@, hits@));
        }
        proof {
            assert forall|y: int| 0 <= y < owners@.len() implies g.is_root(#[trigger] owners@[y])
                && fv[y].1 == owners@[y] by {
                assert(g.is_root(fresh@[y].1));
            }
        }
        let mut x: usize = 0;
        while x < owners.len()
            invariant
                x <= owners@.len(),
                self.forest_ok(),
                self@.inv(m),
                self@.parents_sound(),
                self@.members_distinct(),
                keeps(g, self@, hits@),
                sound(g, self@, hits@),
                all_noted(hits@, fv, table),
                g.ids_ok(m),
                extends(g, self@),
                self@.roots == g.roots,
                self.sets() == old(self).sets(),
                self.dirty() == old(self).dirty(),
                self@.classes.contains_key(id),
                self@.classes[id].parents == fv,
                fv.len() == owners@.len(),
                forall|y: int|
                    0 <= y < owners@.len() ==> g.is_root(#[trigger] owners@[y]) && fv[y].1
                        == owners@[y],
                hits@.len() == 0 ==> forall|y: int|
                    0 <= y < x ==> self@.class_done(#[trigger] owners@[y]),
                forall|h: int|
                    0 <= h < hits@.len() ==> (#[trigger] hits@[h]).0 < g.roots.len() && hits@[h].1
                        < g.roots.len() && g.find(hits@[h].0) != g.find(hits@[h].1),
            decreases owners@.len() - x,
        {
            let k = owners[x];
            let ghost before = self@;
            let ghost found = hits@.len();
            let ghost hits0 = hits@;
            assert(g.is_root(owners@[x as int]));
            let more = self.recanon_class(k, Ghost(m));
            proof {
                lemma_extends_trans(g, before, self@, m, m);
                assert(hits@ =~= hits0 + paired(k, more@).subrange(0, 0));
            }
            let mut h: usize = 0;
            while h < more.len()
                invariant
                    h <= more@.len(),
                    k < g.roots.len(),
                    g.roots[k as int] == k,
                    hits@.len() == 0 ==> h == 0,
                    hits@.len() >= found,
                    hits@ == hits0 + paired(k, more@).subrange(0, h as int),
                    forall|z: int|
                        0 <= z < more@.len() ==> (#[trigger] more@[z]) < g.roots.len() && g.find(
                            more@[z],
                        ) != k,
                    forall|z: int|
                        0 <= z < hits@.len() ==> (#[trigger] hits@[z]).0 < g.roots.len()
                            && hits@[z].1 < g.roots.len() && g.find(hits@[z].0) != g.find(
                            hits@[z].1,
                        ),
                decreases more@.len() - h,
            {
                hits.push((k, more[h]));
                h += 1;
                assert(hits@ =~= hits0 + paired(k, more@).subrange(0, h as int));
            }
            proof {
                assert forall|y: int| 0 <= y < fv.len() implies pair_noted(
                    hits@,
                    (#[trigger] fv[y]).1,
                    table[fv[y].0],
                ) by {
                    assert(pair_noted(hits0, fv[y].1, table[fv[y].0]));
                    if fv[y].1 != table[fv[y].0] {
                        let z = choose|z: int|
                            0 <= z < hits0.len() && hits0[z] == (fv[y].1, table[fv[y].0]);
                        assert(hits@[z] == hits0[z]);
                    }
                }
                assert(paired(k, more@).subrange(0, h as int) =~= paired(k, more@));
                assert forall|base: Graph, r: Rel|
                    closed_over(base, r) && #[trigger] backed(base, r, g) implies backed(
                    base,
                    r,
                    self@,
                ) && justified(r, hits@) by {
                    assert(backed(base, r, before) && justified(r, hits0));
                    assert(backed(base, r, self@) && justified(r, paired(k, more@)));
                    assert forall|z: int| 0 <= z < hits@.len() implies r(
                        (#[trigger] hits@[z]).0,
                        hits@[z].1,
                    ) by {
                        if z < hits0.len() {
                            assert(hits@[z] == hits0[z]);
                        } else {
                            assert(hits@[z] == paired(k, more@)[z - hits0.len()]);
                        }
                    }
                }
                assert forall|val: Valuation, op: Interp| #[trigger]
                    models(g, val, op) implies models(self@, val, op) && level(val, hits@) by {
                    assert(models(before, val, op) && level(val, hits0));
                    assert(models(self@, val, op) && level(val, paired(k, more@)));
                    assert forall|z: int| 0 <= z < hits@.len() implies val(
                        (#[trigger] hits@[z]).0,
                    ) == val(hits@[z].1) by {
                        if z < hits0.len() {
                            assert(hits@[z] == hits0[z]);
                        } else {
                            assert(hits@[z] == paired(k, more@)[z - hits0.len()]);
                        }
                    }
                }
                if hits@.len() == 0 {
                    assert(more@.len() == 0);
                    assert forall|y: int| 0 <= y < x + 1 implies self@.class_done(
                        #[trigger] owners@[y],
                    ) by {
                        let k0 = owners@[y];
                        if k0 != k {
                            assert(before.class_done(k0));
                            assert(g.is_root(k0));
                            assert(before.classes.contains_key(k0));
                            assert(self@.classes[k0] == before.classes[k0]);
                            assert forall|z: int| #[trigger]
                                self@.has_node(k0, z) implies self@.canonical(
                                self@.node_at(k0, z),
                            ) && self@.keyed(self@.node_at(k0, z), k0) by {
                                assert(before.has_node(k0, z));
                                let n = before.node_at(k0, z);
                                assert(before.canonical(n) && before.keyed(n, k0));
                                assert(before.memo.contains_key(n));
                            }
                        }
                    }
                }
            }
            x += 1;
        }
        if hits.len() == 0 {
            proof {
                let now = self@;
                assert forall|k: usize, i: int, j: int|
                    #![trigger now.has_node(k, i), now.node_at(k, i).args[j]]
                    now.has_node(k, i) && 0 <= j < now.node_at(k, i).args.len() && now.find(
                        now.node_at(k, i).args[j],
                    ) == id implies now.canonical(now.node_at(k, i)) && now.keyed(
                    now.node_at(k, i),
                    k,
                ) by {
                    let n = now.node_at(k, i);
                    assert(now.all_listed(n, k));
                    assert(now.listed(now.find(n.args[j]), n, k));
                    let y = choose|y: int| #[trigger]
                        now.has_parent(id, y) && now.find(now.parent_at(id, y).1) == k
                            && now.congruent(now.parent_at(id, y).0, n);
                    assert(now.parent_at(id, y) == fv[y]);
                    assert(g.is_root(owners@[y]));
                    assert(k == owners@[y]);
                    assert(now.class_done(owners@[y]));
                }
                let after = self.dirty() + extra;
                assert forall|d: int| 0 <= d < after.len() implies (#[trigger] after[d])
                    < now.roots.len() by {
                    assert(after[d] == m[d]);
                }
                assert forall|r: usize| #[trigger] now.pending(m, r) implies r == id
                    || now.pending(after, r) by {
                    let d = choose|d: int| 0 <= d < m.len() && now.find(#[trigger] m[d]) == r;
                    if d < after.len() {
                        assert(after[d] == m[d]);
                    } else {
                        assert(m[d] == id);
                    }
                }
                lemma_unmark(now, m, after, id);
                assert forall|base: Graph, r: Rel|
                    closed_over(base, r) && #[trigger] backed(base, r, g) implies backed(
                    base,
                    r,
                    now,
                ) && justified(r, Seq::empty()) by {
                    assert(backed(base, r, now) && justified(r, hits@));
                }
                assert forall|val: Valuation, op: Interp| #[trigger]
                    models(g, val, op) implies models(now, val, op) && level(val, Seq::empty()) by {
                    assert(models(now, val, op) && level(val, hits@));
                }
                assert forall|x: int| 0 <= x < fv.len() implies now.class_done(
                    (#[trigger] fv[x]).1,
                ) by {
                    assert(now.class_done(owners@[x]));
                }
            }
            return Ghost(fv);
        }
        let mut h: usize = 0;
        while h < hits.len()
            invariant
                h <= hits@.len(),
                hits@.len() > 0,
                self.forest_ok(),
                self@.inv(self.dirty() + extra.push(id)),
                self@.parents_sound(),
                self@.members_distinct(),
                keeps(g, self@, hits@),
                sound(g, self@, hits@),
                all_noted(hits@, fv, table),
                g.ids_ok(m),
                extends(g, self@),
                self@.roots.len() == g.roots.len(),
                h == 0 ==> self@.roots == g.roots && self.sets() == old(self).sets(),
                h > 0 ==> self.sets() < old(self).sets(),
                forall|z: int|
                    0 <= z < h ==> self@.same_class((#[trigger] hits@[z]).0, hits@[z].1),
                id < g.roots.len(),
                forall|z: int|
                    0 <= z < hits@.len() ==> (#[trigger] hits@[z]).0 < g.roots.len() && hits@[z].1
                        < g.roots.len() && g.find(hits@[z].0) != g.find(hits@[z].1),
            decreases hits@.len() - h,
        {
            let pair = hits[h];
            let ghost before = self@;
            let ghost marks = self.dirty() + extra.push(id);
            let _ = self.union_with(pair.0, pair.1, Ghost(extra.push(id)));
            proof {
                lemma_extends_trans(g, before, self@, m, marks);
                assert forall|base: Graph, r: Rel|
                    closed_over(base, r) && #[trigger] backed(base, r, g) implies backed(
                    base,
                    r,
                    self@,
                ) && justified(r, hits@) by {
                    assert(backed(base, r, before) && justified(r, hits@));
                    assert(r(hits@[h as int].0, hits@[h as int].1));
                }
                assert forall|z: int| 0 <= z < h + 1 implies self@.same_class(
                    (#[trigger] hits@[z]).0,
                    hits@[z].1,
                ) by {
                    if z < h {
                        assert(before.same_class(hits@[z].0, hits@[z].1));
                    }
                }
                assert forall|val: Valuation, op: Interp| #[trigger]
                    models(g, val, op) implies models(self@, val, op) && level(val, hits@) by {
                    assert(models(before, val, op) && level(val, hits@));
                    assert(val(hits@[h as int].0) == val(hits@[h as int].1));
                }
            }
            h += 1;
        }
        let ghost before = self.dirty() + extra.push(id);
        self.dirty_unions.push(id);
        proof {
            let now = self@;
            let after = self.dirty() + extra;
            let dl = self.dirty().len() as int;
            assert forall|d: int| 0 <= d < after.len() implies (#[trigger] after[d])
                < now.roots.len() by {
                if d < dl - 1 {
                    assert(after[d] == before[d]);
                } else if d >= dl {
                    assert(after[d] == before[d - 1]);
                }
            }
            assert forall|d: int| 0 <= d < before.len() implies now.pending(
                after,
                now.find(#[trigger] before[d]),
            ) by {
                let d2 = if d < dl - 1 {
                    d
                } else if d < before.len() - 1 {
                    d + 1
                } else {
                    dl - 1
                };
                assert(after[d2] == before[d]);
            }
            lemma_remark(now, before, after);
            assert forall|base: Graph, r: Rel|
                closed_over(base, r) && #[trigger] backed(base, r, g) implies backed(base, r, now)
                && justified(r, Seq::empty()) by {
                assert(backed(base, r, now) && justified(r, hits@));
            }
            assert forall|val: Valuation, op: Interp| #[trigger]
                models(g, val, op) implies models(now, val, op) && level(val, Seq::empty()) by {
                assert(models(now, val, op) && level(val, hits@));
            }
            assert forall|x: int, y: int|
                0 <= x < fv.len() && 0 <= y < fv.len() && (#[trigger] fv[x]).0
                    == (#[trigger] fv[y]).0 implies now.find(fv[x].1) == now.find(fv[y].1) by {
                let o = table[fv[x].0];
                assert(pair_noted(hits@, fv[x].1, o) && pair_noted(hits@, fv[y].1, o));
                if fv[x].1 != o {
                    let z = choose|z: int| 0 <= z < hits@.len() && hits@[z] == (fv[x].1, o);
                    assert(now.same_class(hits@[z].0, hits@[z].1));
                }
                if fv[y].1 != o {
                    let z = choose|z: int| 0 <= z < hits@.len() && hits@[z] == (fv[y].1, o);
                    assert(now.same_class(hits@[z].0, hits@[z].1));
                }
            }
        }
        Ghost(fv)
    }

    /// Repairs the classes that wait for it until none is left: afterwards
    /// every member node is canonical, the hash-cons table and the classes
    /// agree, and congruent nodes share a class.
    pub fn rebuild(&mut self)
        requires
            old(self).wf(),
        ensures
            final(self).wf(),
            final(self).dirty().len() == 0,
            final(self)@.clean(),
            final(self)@.roots.len() == old(self)@.roots.len(),
            extends(old(self)@, final(self)@),
            least(old(self)@, final(self)@),
            rooted(old(self)@, final(self)@),
            sound(old(self)@, final(self)@, Seq::empty()),
            final(self).sets() <= old(self).sets(),
            old(self).dirty().len() == 0 ==> final(self).same(old(self)),
    {
        proof {
            lemma_extends_refl(self@, self.dirty());
        }
        while self.dirty_unions.len() > 0
            invariant
                self.forest_ok(),
                self@.inv(self.dirty()),
                self@.parents_sound(),
                self@.members_distinct(),
                keeps(old(self)@, self@, Seq::empty()),
                sound(old(self)@, self@, Seq::empty()),
                old(self).wf(),
                old(self)@.ids_ok(old(self).dirty()),
                extends(old(self)@, self@),
                self@.roots.len() == old(self)@.roots.len(),
                self.sets() <= old(self).sets(),
                old(self).dirty().len() == 0 ==> self.same(old(self)),
            decreases self.sets(), self.dirty().len(),
        {
            let ghost sets0 = self.sets();
            let ghost dirty0 = self.dirty();
            let ghost g = self@;
            let mut queue = idset_new();
            let mut d: usize = 0;
            while d < self.dirty_unions.len()
                invariant
                    d <= self.dirty_unions@.len(),
                    self.unionfind.wf(),
                    self@ == g,
                    self.sets() == sets0,
                    self.dirty() == dirty0,
                    g.inv(dirty0),
                    g.parents_sound(),
                    g.members_distinct(),
                    forall|x: int|
                        0 <= x < idset_items(queue).len() ==> g.is_root(
                            #[trigger] idset_items(queue)[x],
                        ),
                    forall|x: int|
                        0 <= x < d ==> idset_items(queue).contains(g.find(#[trigger] dirty0[x])),
                decreases self.dirty_unions@.len() - d,
            {
                let ghost items0 = idset_items(queue);
                assert(dirty0[d as int] < g.roots.len());
                let r = self.unionfind.find_mut(self.dirty_unions[d]);
                idset_insert(&mut queue, r);
                proof {
                    let items = idset_items(queue);
                    assert(g.roots[dirty0[d as int] as int] <= dirty0[d as int]);
                    assert forall|x: int| 0 <= x < items0.len() implies items[x] == items0[x] by {}
                    assert forall|x: int| 0 <= x < d + 1 implies items.contains(
                        g.find(#[trigger] dirty0[x]),
                    ) by {
                        if x < d {
                            let y = choose|y: int|
                                0 <= y < items0.len() && items0[y] == g.find(dirty0[x]);
                            assert(items[y] == g.find(dirty0[x]));
                        } else if items0.contains(r) {
                        } else {
                            assert(items[items0.len() as int] == r);
                        }
                    }
                }
                d += 1;
            }
            self.dirty_unions = Vec::new();
            let ghost items = idset_items(queue);
            proof {
                let after = self.dirty() + items;
                assert(after =~= items);
                assert forall|x: int| 0 <= x < dirty0.len() implies g.pending(
                    after,
                    g.find(#[trigger] dirty0[x]),
                ) by {
                    let y = choose|y: int| 0 <= y < items.len() && items[y] == g.find(dirty0[x]);
                    assert(g.is_root(items[y]));
                    assert(g.find(after[y]) == g.find(dirty0[x]));
                }
                lemma_remark(g, dirty0, after);
                assert(items.subrange(0, items.len() as int) =~= items);
            }
            let n = idset_len(&queue);
            let mut t: usize = 0;
            while t < n
                invariant
                    t <= n,
                    n == items.len(),
                    items == idset_items(queue),
                    self.forest_ok(),
                    self@.inv(self.dirty() + items.subrange(t as int, n as int)),
                    self@.parents_sound(),
                    self@.members_distinct(),
                    keeps(old(self)@, self@, Seq::empty()),
                    sound(old(self)@, self@, Seq::empty()),
                    old(self)@.ids_ok(old(self).dirty()),
                    extends(old(self)@, self@),
                    self@.roots.len() == g.roots.len(),
                    self.sets() <= sets0,
                    self.sets() < sets0 || self.dirty().len() == 0,
                decreases n - t,
            {
                let id = idset_get(&queue, t);
                let ghost before = self.dirty() + items.subrange(t as int, n as int);
                let ghost rest = items.subrange(t + 1, n as int);
                proof {
                    assert(before[self.dirty().len() as int] == id);
                }
                let r = self.unionfind.find_mut(id);
                proof {
                    let now = self@;
                    let dl = self.dirty().len() as int;
                    let after = self.dirty() + rest.push(r);
                    assert(now.roots[id as int] <= id);
                    assert forall|x: int| 0 <= x < after.len() implies (#[trigger] after[x])
                        < now.roots.len() by {
                        if x < dl {
                            assert(after[x] == before[x]);
                        } else if x < after.len() - 1 {
                            assert(after[x] == before[x + 1]);
                        }
                    }
                    assert forall|x: int| 0 <= x < before.len() implies now.pending(
                        after,
                        now.find(#[trigger] before[x]),
                    ) by {
                        let y = if x < dl {
                            x
                        } else if x == dl {
                            after.len() - 1
                        } else {
                            x - 1
                        };
                        if x == dl {
                            assert(after[y] == r);
                            assert(now.find(after[y]) == now.find(before[x]));
                        } else {
                            assert(after[y] == before[x]);
                        }
                    }
                    lemma_remark(now, before, after);
                }
                let ghost mid = self@;
                let ghost marks = self.dirty() + rest.push(r);
                let _ = self.repair(r, Ghost(rest));
                proof {
                    lemma_extends_trans(old(self)@, mid, self@, old(self).dirty(), marks);
                    assert forall|base: Graph, r: Rel|
                        closed_over(base, r) && #[trigger] backed(base, r, old(self)@) implies backed(
                        base,
                        r,
                        self@,
                    ) && justified(r, Seq::empty()) by {
                        assert(backed(base, r, mid));
                    }
                    assert forall|val: Valuation, op: Interp| #[trigger]
                        models(old(self)@, val, op) implies models(self@, val, op) && level(
                        val,
                        Seq::empty(),
                    ) by {
                        assert(models(mid, val, op));
                    }
                }
                t += 1;
            }
            proof {
                assert(self.dirty() + items.subrange(n as int, n as int) =~= self.dirty());
            }
        }
        proof {
            assert(self.dirty() =~= Seq::<usize>::empty());
            lemma_kept_least(old(self)@, old(self).dirty(), self@, self.dirty());
            law_nothing_made_up(old(self)@, old(self).dirty(), self@);
        }
    }
}

impl EGraph {
    /// Whether the two e-nodes are in one class. Both must be held by the e-graph.
    pub fn in_same_class(&mut self, t1: Enode, t2: Enode) -> (r: bool)
        requires
            old(self).wf(),
            old(self)@.node_ok(t1@),
            old(self)@.node_ok(t2@),
            old(self)@.lookup(t1@).is_some(),
            old(self)@.lookup(t2@).is_some(),
        ensures
            final(self).wf(),
            final(self).same(old(self)),
            r == (old(self)@.lookup(t1@) == old(self)@.lookup(t2@)),
    {
        let mut a = t1;
        let mut b = t2;
        let c1 = self.find_eclass(&mut a);
        let c2 = self.find_eclass(&mut b);
        c1.unwrap() == c2.unwrap()
    }

    /// The class stored under `id`: there is one where `id` is a representative.
    pub fn get_eclass(&self, id: Id) -> (r: Option<&EClass>)
        ensures
            match r {
                Some(c) => self@.classes.contains_key(id) && c@ == self@.classes[id],
                None => !self@.classes.contains_key(id),
            },
    {
        classes_get(&self.classes, id)
    }

    /// A copy of the class stored under `id`.
    pub fn get_eclass_cpy(self, id: Id) -> (r: Option<EClass>)
        ensures
            match r {
                Some(c) => self@.classes.contains_key(id) && c@ == self@.classes[id],
                None => !self@.classes.contains_key(id),
            },
    {
        match classes_get(&self.classes, id) {
            Some(c) => Some(c.copy()),
            None => None,
        }
    }

    /// The representatives of all classes, in ascending order.
    pub fn class_ids(&self) -> (ids: Vec<Id>)
        requires
            self.wf(),
        ensures
            ids@ == class_list(self@.roots, self@.roots.len()),
            forall|x: int| 0 <= x < ids@.len() ==> self@.is_root(#[trigger] ids@[x]),
            forall|id: usize| self@.is_root(id) ==> ids@.contains(id),
            forall|x: int, y: int| 0 <= x < y < ids@.len() ==> ids@[x] < ids@[y],
    {
        let n = self.unionfind.len();
        let mut ids: Vec<Id> = Vec::new();
        let mut i: usize = 0;
        while i < n
            invariant
                i <= n,
                n == self@.roots.len(),
                self.unionfind.wf(),
                ids@ == class_list(self@.roots, i as nat),
                forall|x: int|
                    0 <= x < ids@.len() ==> self@.is_root(#[trigger] ids@[x]) && ids@[x] < i,
                forall|id: usize| id < i && self@.is_root(id) ==> ids@.contains(id),
                forall|x: int, y: int| 0 <= x < y < ids@.len() ==> ids@[x] < ids@[y],
            decreases n - i,
        {
            if self.unionfind.find(i) == i {
                let ghost before = ids@;
                ids.push(i);
                proof {
                    assert forall|id: usize| id < i + 1 && self@.is_root(id) implies ids@.contains(
                        id,
                    ) by {
                        if id < i {
                            let x = choose|x: int| 0 <= x < before.len() && before[x] == id;
                            assert(ids@[x] == id);
                        } else {
                            assert(ids@[before.len() as int] == id);
                        }
                    }
                }
            }
            i += 1;
        }
        ids
    }

    /// The ids that wait for repair, oldest first.
    pub fn dirty_ids(&self) -> (ids: &Vec<Id>)
        ensures
            ids@ == self.dirty(),
    {
        &self.dirty_unions
    }
}

/// Whether every entry is noted with the owner that `table` holds for its node.
pub open spec fn all_noted(
    pairs: Seq<(usize, usize)>,
    es: Seq<(Node, usize)>,
    table: Map<Node, usize>,
) -> bool {
    forall|x: int|
        0 <= x < es.len() ==> table.contains_key((#[trigger] es[x]).0) && pair_noted(
            pairs,
            es[x].1,
            table[es[x].0],
        )
}

/// Whether `a` is `b`, or the pair of the two is among `pairs`.
pub open spec fn pair_noted(pairs: Seq<(usize, usize)>, a: usize, b: usize) -> bool {
    a == b || exists|z: int| 0 <= z < pairs.len() && pairs[z] == (a, b)
}

/// The representatives among the first `n` ids, in ascending order.
pub open spec fn class_list(roots: Seq<usize>, n: nat) -> Seq<usize>
    decreases n,
{
    if n == 0 || n > roots.len() {
        Seq::empty()
    } else if roots[n - 1] == n - 1 {
        class_list(roots, (n - 1) as nat).push((n - 1) as usize)
    } else {
        class_list(roots, (n - 1) as nat)
    }
}

/// The representative that survives the union of `a` and `b`: the smaller one.
pub open spec fn survivor(g: Graph, a: usize, b: usize) -> usize {
    if g.find(a) <= g.find(b) {
        g.find(a)
    } else {
        g.find(b)
    }
}

/// The representative that the union of `a` and `b` absorbs: the larger one.
pub open spec fn absorbed(g: Graph, a: usize, b: usize) -> usize {
    if g.find(a) <= g.find(b) {
        g.find(b)
    } else {
        g.find(a)
    }
}

} // verus!
