use vstd::prelude::*;
use crate::model::canon_by;
use crate::node::{Enode, Id};

verus! {

/// The representative reached from `i` by following the links.
pub open spec fn root_of(links: Seq<usize>, i: int) -> int
    decreases i,
{
    if 0 <= i < links.len() && (links[i] as int) < i {
        root_of(links, links[i] as int)
    } else {
        i
    }
}

/// No link points at a larger id, so every chain of links ends.
pub open spec fn links_ok(links: Seq<usize>) -> bool {
    forall|i: int| 0 <= i < links.len() ==> #[trigger] links[i] <= i
}

/// The number of ids below `n` that are their own link.
pub open spec fn count_roots(links: Seq<usize>, n: int) -> nat
    decreases n,
{
    if n <= 0 {
        0
    } else {
        count_roots(links, n - 1) + if links[n - 1] == n - 1 {
            1nat
        } else {
            0nat
        }
    }
}

/// What a table of representatives must satisfy: a representative is not
/// larger than its members and represents itself.
pub open spec fn roots_ok(roots: Seq<usize>) -> bool {
    forall|i: int|
        0 <= i < roots.len() ==> (#[trigger] roots[i]) <= i && roots[roots[i] as int] == roots[i]
}

/// The table of representatives after the set of `f` is merged into that of `s`.
pub open spec fn merged_roots(roots: Seq<usize>, s: usize, f: usize) -> Seq<usize> {
    Seq::new(
        roots.len(),
        |i: int|
            if roots[i] == f {
                s
            } else {
                roots[i]
            },
    )
}

pub proof fn lemma_root_props(links: Seq<usize>, i: int)
    requires
        links_ok(links),
        0 <= i < links.len(),
    ensures
        0 <= root_of(links, i) <= i,
        links[root_of(links, i)] == root_of(links, i),
        root_of(links, root_of(links, i)) == root_of(links, i),
    decreases i,
{
    if (links[i] as int) < i {
        lemma_root_props(links, links[i] as int);
    }
}

proof fn lemma_relink_at(links: Seq<usize>, x: int, r: int, i: int)
    requires
        links_ok(links),
        0 <= x < links.len(),
        r == root_of(links, x),
        0 <= i < links.len(),
    ensures
        root_of(links.update(x, r as usize), i) == root_of(links, i),
    decreases i,
{
    lemma_root_props(links, x);
    if i == x {
        if r < x {
            lemma_relink_at(links, x, r, r);
        }
    } else if (links[i] as int) < i {
        lemma_relink_at(links, x, r, links[i] as int);
    }
}

/// Pointing an id straight at its representative changes no representative.
proof fn lemma_relink(links: Seq<usize>, x: int, r: int)
    requires
        links_ok(links),
        0 <= x < links.len(),
        r == root_of(links, x),
    ensures
        links_ok(links.update(x, r as usize)),
        forall|i: int|
            0 <= i < links.len() ==> #[trigger] root_of(links.update(x, r as usize), i) == root_of(
                links,
                i,
            ),
{
    lemma_root_props(links, x);
    assert forall|i: int| 0 <= i < links.len() implies #[trigger] root_of(
        links.update(x, r as usize),
        i,
    ) == root_of(links, i) by {
        lemma_relink_at(links, x, r, i);
    }
}

proof fn lemma_link_at(links: Seq<usize>, f: int, s: int, i: int)
    requires
        links_ok(links),
        0 <= s < f < links.len(),
        links[f] == f,
        links[s] == s,
        0 <= i < links.len(),
    ensures
        root_of(links.update(f, s as usize), i) == (if root_of(links, i) == f {
            s
        } else {
            root_of(links, i)
        }),
    decreases i,
{
    if i == f {
        lemma_link_at(links, f, s, s);
    } else if (links[i] as int) < i {
        lemma_link_at(links, f, s, links[i] as int);
    }
}

/// Linking the representative `f` below the smaller representative `s` moves
/// exactly the members of `f`.
proof fn lemma_link(links: Seq<usize>, f: int, s: int)
    requires
        links_ok(links),
        0 <= s < f < links.len(),
        links[f] == f,
        links[s] == s,
    ensures
        links_ok(links.update(f, s as usize)),
        forall|i: int|
            0 <= i < links.len() ==> #[trigger] root_of(links.update(f, s as usize), i) == (if root_of(
                links,
                i,
            ) == f {
                s
            } else {
                root_of(links, i)
            }),
{
    assert forall|i: int| 0 <= i < links.len() implies #[trigger] root_of(
        links.update(f, s as usize),
        i,
    ) == (if root_of(links, i) == f {
        s
    } else {
        root_of(links, i)
    }) by {
        lemma_link_at(links, f, s, i);
    }
}

proof fn lemma_grow_at(links: Seq<usize>, id: usize, i: int)
    requires
        links_ok(links),
        id == links.len(),
        0 <= i < links.len(),
    ensures
        root_of(links.push(id), i) == root_of(links, i),
    decreases i,
{
    if (links[i] as int) < i {
        lemma_grow_at(links, id, links[i] as int);
    }
}

/// Every representative fits the type of an id.
proof fn lemma_roots_fit(links: Seq<usize>)
    requires
        links_ok(links),
    ensures
        forall|i: int|
            0 <= i < links.len() ==> (#[trigger] root_of(links, i) as usize) as int == root_of(
                links,
                i,
            ),
{
    assert forall|i: int| 0 <= i < links.len() implies (#[trigger] root_of(links, i) as usize)
        as int == root_of(links, i) by {
        lemma_root_props(links, i);
    }
}

proof fn lemma_count_update(links: Seq<usize>, x: int, v: usize, n: int)
    requires
        0 <= x < links.len(),
        0 <= n <= links.len(),
    ensures
        count_roots(links.update(x, v), n) == count_roots(links, n) - (if x < n && links[x] == x {
            1int
        } else {
            0int
        }) + (if x < n && v == x {
            1int
        } else {
            0int
        }),
    decreases n,
{
    if n > 0 {
        lemma_count_update(links, x, v, n - 1);
    }
}

proof fn lemma_count_push(links: Seq<usize>, v: usize, n: int)
    requires
        0 <= n <= links.len(),
    ensures
        count_roots(links.push(v), n) == count_roots(links, n),
    decreases n,
{
    if n > 0 {
        lemma_count_push(links, v, n - 1);
    }
}

proof fn lemma_count_bound(links: Seq<usize>, n: int)
    requires
        0 <= n <= links.len(),
    ensures
        count_roots(links, n) <= n,
    decreases n,
{
    if n > 0 {
        lemma_count_bound(links, n - 1);
    }
}

proof fn lemma_count_same(links: Seq<usize>, roots: Seq<usize>, n: int)
    requires
        links_ok(links),
        roots.len() == links.len(),
        forall|i: int| 0 <= i < links.len() ==> #[trigger] roots[i] == root_of(links, i),
        0 <= n <= links.len(),
    ensures
        count_roots(links, n) == count_roots(roots, n),
    decreases n,
{
    if n > 0 {
        lemma_count_same(links, roots, n - 1);
        lemma_root_props(links, n - 1);
        assert(roots[n - 1] == root_of(links, n - 1));
    }
}

/// A disjoint-set forest over the ids `0 .. len`. The smallest member of a set
/// is its representative.
#[derive(Debug, Clone)]
pub struct UnionFind {
    links: Vec<Id>,
}

impl UnionFind {
    /// The links form a forest in which every link points downwards.
    pub closed spec fn wf(&self) -> bool {
        links_ok(self.links@)
    }

    /// The representative of every id.
    pub closed spec fn roots(&self) -> Seq<usize> {
        Seq::new(self.links@.len(), |i: int| root_of(self.links@, i) as usize)
    }

    /// The number of sets: as many as there are ids that represent themselves.
    pub closed spec fn sets(&self) -> nat {
        count_roots(self.links@, self.links@.len() as int)
    }

    /// A well-formed forest has a well-formed table of representatives, and
    /// no more sets than ids.
    pub proof fn lemma_roots(&self)
        requires
            self.wf(),
        ensures
            roots_ok(self.roots()),
            self.sets() <= self.roots().len(),
            self.sets() == count_roots(self.roots(), self.roots().len() as int),
    {
        let links = self.links@;
        assert forall|i: int| 0 <= i < self.roots().len() implies (#[trigger] self.roots()[i]) <= i
            && self.roots()[self.roots()[i] as int] == self.roots()[i] by {
            lemma_root_props(links, i);
        }
        lemma_count_bound(links, links.len() as int);
        lemma_roots_fit(links);
        lemma_count_same(links, self.roots(), links.len() as int);
    }

    /// The empty forest.
    pub fn new() -> (r: UnionFind)
        ensures
            r.wf(),
            r.roots().len() == 0,
            r.sets() == 0,
    {
        UnionFind { links: Vec::new() }
    }

    /// The number of ids.
    pub fn len(&self) -> (n: usize)
        ensures
            n == self.roots().len(),
    {
        self.links.len()
    }

    /// Allocates the next id, in a set of its own.
    pub fn new_set(&mut self) -> (id: Id)
        requires
            old(self).wf(),
        ensures
            final(self).wf(),
            id == old(self).roots().len(),
            final(self).roots() == old(self).roots().push(id),
            final(self).sets() == old(self).sets() + 1,
            old(self).roots().len() < usize::MAX,
    {
        let id = self.links.len();
        proof {
            let links = self.links@;
            let grown = links.push(id);
            assert forall|i: int| 0 <= i < links.len() implies root_of(grown, i) == root_of(
                links,
                i,
            ) by {
                lemma_grow_at(links, id, i);
            }
            lemma_roots_fit(links);
            lemma_count_push(links, id, links.len() as int);
            assert(self.roots().push(id) =~= Seq::new(
                grown.len(),
                |i: int| root_of(grown, i) as usize,
            ));
        }
        self.links.push(id);
        assert(self.links@.len() == self.links.len());
        id
    }

    /// The representative of `id`.
    pub fn find(&self, id: Id) -> (r: Id)
        requires
            self.wf(),
            id < self.roots().len(),
        ensures
            r == self.roots()[id as int],
    {
        let mut cur = id;
        while self.links[cur] != cur
            invariant
                links_ok(self.links@),
                cur < self.links@.len(),
                root_of(self.links@, cur as int) == root_of(self.links@, id as int),
            decreases cur,
        {
            cur = self.links[cur];
        }
        cur
    }

    /// The representative of `id`; every id on the way is pointed straight at it.
    pub fn find_mut(&mut self, id: Id) -> (r: Id)
        requires
            old(self).wf(),
            id < old(self).roots().len(),
        ensures
            final(self).wf(),
            final(self).roots() == old(self).roots(),
            final(self).sets() == old(self).sets(),
            r == old(self).roots()[id as int],
    {
        let root = self.find(id);
        let mut cur = id;
        proof {
            lemma_roots_fit(self.links@);
        }
        while cur != root
            invariant
                links_ok(self.links@),
                self.links@.len() == old(self).links@.len(),
                cur < self.links@.len(),
                root_of(self.links@, cur as int) == root,
                forall|i: int|
                    0 <= i < self.links@.len() ==> #[trigger] root_of(self.links@, i) == root_of(
                        old(self).links@,
                        i,
                    ),
                count_roots(self.links@, self.links@.len() as int) == count_roots(
                    old(self).links@,
                    old(self).links@.len() as int,
                ),
            decreases cur,
        {
            let next = self.links[cur];
            proof {
                lemma_relink(self.links@, cur as int, root as int);
                lemma_count_update(self.links@, cur as int, root, self.links@.len() as int);
                lemma_root_props(self.links@, cur as int);
            }
            self.links.set(cur, root);
            cur = next;
        }
        proof {
            lemma_roots_fit(self.links@);
            lemma_roots_fit(old(self).links@);
        }
        assert(self.roots() =~= old(self).roots());
        root
    }

    /// Merges the sets of `a` and `b`; the smaller representative survives
    /// and is returned.
    pub fn union(&mut self, a: Id, b: Id) -> (s: Id)
        requires
            old(self).wf(),
            a < old(self).roots().len(),
            b < old(self).roots().len(),
        ensures
            final(self).wf(),
            old(self).roots()[a as int] <= old(self).roots()[b as int] ==> s == old(self).roots()[a as int]
                && final(self).roots() == merged_roots(
                old(self).roots(),
                s,
                old(self).roots()[b as int],
            ),
            old(self).roots()[b as int] < old(self).roots()[a as int] ==> s == old(self).roots()[b as int]
                && final(self).roots() == merged_roots(
                old(self).roots(),
                s,
                old(self).roots()[a as int],
            ),
            final(self).sets() == old(self).sets() - (if old(self).roots()[a as int]
                == old(self).roots()[b as int] {
                0int
            } else {
                1int
            }),
    {
        let ra = self.find(a);
        let rb = self.find(b);
        proof {
            lemma_root_props(self.links@, a as int);
            lemma_root_props(self.links@, b as int);
        }
        if ra == rb {
            proof {
                lemma_roots_fit(self.links@);
            }
            assert(self.roots() =~= merged_roots(self.roots(), ra, rb));
            return ra;
        }
        let s = if ra < rb {
            ra
        } else {
            rb
        };
        let f = if ra < rb {
            rb
        } else {
            ra
        };
        proof {
            lemma_roots_fit(self.links@);
            lemma_link(self.links@, f as int, s as int);
            lemma_roots_fit(self.links@.update(f as int, s));
            lemma_count_update(self.links@, f as int, s, self.links@.len() as int);
            assert(Seq::new(
                self.links@.len(),
                |i: int| root_of(self.links@.update(f as int, s), i) as usize,
            ) =~= merged_roots(self.roots(), s, f));
        }
        self.links.set(f, s);
        s
    }

    /// Replaces every argument of `term` by its representative.
    pub fn canonicalize(&mut self, term: &mut Enode)
        requires
            old(self).wf(),
            forall|j: int|
                0 <= j < old(term)@.args.len() ==> (#[trigger] old(term)@.args[j])
                    < old(self).roots().len(),
        ensures
            final(self).wf(),
            final(self).roots() == old(self).roots(),
            final(self).sets() == old(self).sets(),
            final(term)@ == canon_by(old(self).roots(), old(term)@),
    {
        let mut j: usize = 0;
        while j < term.args.len()
            invariant
                self.wf(),
                self.roots() == old(self).roots(),
                self.sets() == old(self).sets(),
                term.head == old(term).head,
                term.args@.len() == old(term).args@.len(),
                j <= term.args@.len(),
                forall|x: int|
                    0 <= x < j ==> (#[trigger] term.args@[x])
                        == old(self).roots()[old(term).args@[x] as int],
                forall|x: int|
                    j <= x < term.args@.len() ==> (#[trigger] term.args@[x]) == old(term).args@[x],
                forall|x: int|
                    0 <= x < old(term)@.args.len() ==> (#[trigger] old(term)@.args[x])
                        < old(self).roots().len(),
            decreases term.args@.len() - j,
        {
            assert(old(term)@.args[j as int] < old(self).roots().len());
            let r = self.find_mut(term.args[j]);
            term.args.set(j, r);
            j += 1;
        }
        assert(term@.args =~= canon_by(old(self).roots(), old(term)@).args);
    }

    /// Whether `a` and `b` are in one set.
    pub fn in_same_set(&self, a: Id, b: Id) -> (r: bool)
        requires
            self.wf(),
            a < self.roots().len(),
            b < self.roots().len(),
        ensures
            r == (self.roots()[a as int] == self.roots()[b as int]),
    {
        self.find(a) == self.find(b)
    }
}

} // verus!
