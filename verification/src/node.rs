use vstd::prelude::*;

verus! {

/// Name of an equivalence class.
pub type Id = usize;

/// Mathematical value of an e-node: an operator and the classes of its arguments.
pub struct Node {
    pub head: Seq<char>,
    pub args: Seq<usize>,
}

/// An operator applied to e-class ids.
#[derive(Debug, Clone, PartialEq, Eq, Hash)]
pub struct Enode {
    pub head: String,
    pub args: Vec<Id>,
}

impl View for Enode {
    type V = Node;

    open spec fn view(&self) -> Node {
        Node { head: self.head@, args: self.args@ }
    }
}

impl Enode {
    /// A node with the given operator and no arguments.
    pub fn new(head: String) -> (r: Enode)
        ensures
            r@ == (Node { head: head@, args: Seq::<usize>::empty() }),
    {
        Enode { head, args: Vec::new() }
    }

    /// An independent copy with the same value.
    pub fn copy(&self) -> (r: Enode)
        ensures
            r@ == self@,
    {
        let mut args: Vec<Id> = Vec::new();
        let mut i: usize = 0;
        while i < self.args.len()
            invariant
                i <= self.args.len(),
                args@ == self.args@.subrange(0, i as int),
            decreases self.args.len() - i,
        {
            args.push(self.args[i]);
            i += 1;
            assert(args@ =~= self.args@.subrange(0, i as int));
        }
        assert(args@ =~= self.args@);
        Enode { head: self.head.clone(), args }
    }

    /// Whether two nodes have the same operator and the same arguments.
    pub fn same(&self, other: &Enode) -> (r: bool)
        ensures
            r == (self@ == other@),
    {
        if self.head != other.head || self.args.len() != other.args.len() {
            return false;
        }
        let mut i: usize = 0;
        while i < self.args.len()
            invariant
                i <= self.args.len(),
                self.args.len() == other.args.len(),
                self.args@.subrange(0, i as int) == other.args@.subrange(0, i as int),
            decreases self.args.len() - i,
        {
            if self.args[i] != other.args[i] {
                assert(self.args@[i as int] != other.args@[i as int]);
                return false;
            }
            i += 1;
            assert(self.args@.subrange(0, i as int) =~= self.args@.subrange(0, i - 1).push(
                self.args@[i - 1],
            ));
            assert(other.args@.subrange(0, i as int) =~= other.args@.subrange(0, i - 1).push(
                other.args@[i - 1],
            ));
        }
        assert(self.args@ =~= self.args@.subrange(0, i as int));
        assert(other.args@ =~= other.args@.subrange(0, i as int));
        true
    }
}

/// Mathematical value of an e-class: its member nodes, and the nodes elsewhere
/// that have this class among their arguments, each with its own class.
pub struct Class {
    pub nodes: Seq<Node>,
    pub parents: Seq<(Node, usize)>,
}

/// The values of a list of e-nodes.
pub open spec fn nodes_view(v: Seq<Enode>) -> Seq<Node> {
    Seq::new(v.len(), |i: int| v[i]@)
}

/// The values of a list of parent entries.
pub open spec fn parents_view(v: Seq<(Enode, Id)>) -> Seq<(Node, usize)> {
    Seq::new(v.len(), |i: int| (v[i].0@, v[i].1))
}

/// A set of e-nodes known to be equal, with its parent list.
#[derive(Debug, Clone)]
pub struct EClass {
    pub nodes: Vec<Enode>,
    pub parents: Vec<(Enode, Id)>,
}

impl View for EClass {
    type V = Class;

    open spec fn view(&self) -> Class {
        Class { nodes: nodes_view(self.nodes@), parents: parents_view(self.parents@) }
    }
}

impl EClass {
    /// The class that holds `enode` alone and has no parents.
    pub fn new(enode: Enode) -> (r: EClass)
        ensures
            r@.nodes == seq![enode@],
            r@.parents == Seq::<(Node, usize)>::empty(),
    {
        let mut nodes: Vec<Enode> = Vec::new();
        nodes.push(enode);
        let r = EClass { nodes, parents: Vec::new() };
        assert(r@.nodes =~= seq![enode@]);
        assert(r@.parents =~= Seq::<(Node, usize)>::empty());
        r
    }

    /// An independent copy with the same value.
    pub fn copy(&self) -> (r: EClass)
        ensures
            r@ == self@,
    {
        let mut nodes: Vec<Enode> = Vec::new();
        let mut i: usize = 0;
        while i < self.nodes.len()
            invariant
                i <= self.nodes.len(),
                nodes@.len() == i,
                forall|j: int| 0 <= j < i ==> (#[trigger] nodes@[j])@ == self.nodes@[j]@,
            decreases self.nodes.len() - i,
        {
            nodes.push(self.nodes[i].copy());
            i += 1;
        }
        let mut parents: Vec<(Enode, Id)> = Vec::new();
        let mut l: usize = 0;
        while l < self.parents.len()
            invariant
                l <= self.parents.len(),
                parents@.len() == l,
                forall|j: int|
                    0 <= j < l ==> (#[trigger] parents@[j]).0@ == self.parents@[j].0@
                        && parents@[j].1 == self.parents@[j].1,
            decreases self.parents.len() - l,
        {
            parents.push((self.parents[l].0.copy(), self.parents[l].1));
            l += 1;
        }
        assert(nodes_view(nodes@) =~= nodes_view(self.nodes@));
        assert(parents_view(parents@) =~= parents_view(self.parents@));
        EClass { nodes, parents }
    }
}

/// A place in `v` that holds a node equal to `n`, if there is one.
pub fn position(v: &Vec<Enode>, n: &Enode) -> (r: Option<usize>)
    ensures
        match r {
            Some(i) => i < v@.len() && v@[i as int]@ == n@,
            None => forall|i: int| 0 <= i < v@.len() ==> (#[trigger] v@[i])@ != n@,
        },
{
    let mut i: usize = 0;
    while i < v.len()
        invariant
            i <= v@.len(),
            forall|x: int| 0 <= x < i ==> (#[trigger] v@[x])@ != n@,
        decreases v@.len() - i,
    {
        if v[i].same(n) {
            return Some(i);
        }
        i += 1;
    }
    None
}

/// A place in `v` that holds the node `n` with the id `id`, if there is one.
pub fn entry_position(v: &Vec<(Enode, Id)>, n: &Enode, id: Id) -> (r: Option<usize>)
    ensures
        match r {
            Some(i) => i < v@.len() && v@[i as int].0@ == n@ && v@[i as int].1 == id,
            None => forall|i: int|
                0 <= i < v@.len() ==> !((#[trigger] v@[i]).0@ == n@ && v@[i].1 == id),
        },
{
    let mut i: usize = 0;
    while i < v.len()
        invariant
            i <= v@.len(),
            forall|x: int| 0 <= x < i ==> !((#[trigger] v@[x]).0@ == n@ && v@[x].1 == id),
        decreases v@.len() - i,
    {
        if v[i].1 == id && v[i].0.same(n) {
            return Some(i);
        }
        i += 1;
    }
    None
}

} // verus!
