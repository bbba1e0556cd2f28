//! The profile trie: every known allele chain, stored once per shared prefix.

use crate::error::TypingError;
use crate::model::{
    attached, below, chain_labels, lemma_attach_grown_child, lemma_attach_new_chain,
    lemma_chain_labels_step, matched_from, resolved_st, with_chain, Labels,
};
use std::collections::HashMap;
use vstd::prelude::*;

verus! {

broadcast use vstd::std_specs::hash::group_hash_axioms;

/// One node of the trie: the children by allele number at the next locus, and the ST
/// of the profile that ends here (the sentinel where none does).
#[derive(Debug)]
pub struct Node {
    nexts: HashMap<u16, Node>,
    st: u16,
}

/// The trie itself: its first level, keyed by the allele at locus 0.
#[derive(Debug)]
pub struct Tree {
    roots: HashMap<u16, Node>,
}

/// The node that `path` leads to from above a set of siblings.
spec fn reach(level: Map<u16, Node>, path: Seq<u16>) -> Option<Node> {
    if path.len() > 0 && level.contains_key(path[0]) {
        level[path[0]].descend(path.skip(1))
    } else {
        None
    }
}

/// The labels below a set of siblings, by the non-empty path to each node.
spec fn level_labels(level: Map<u16, Node>) -> Labels {
    Map::new(|p: Seq<u16>| reach(level, p) is Some, |p: Seq<u16>| reach(level, p).unwrap().st)
}

impl Node {
    /// The node that `path` leads to from this one.
    spec fn descend(self, path: Seq<u16>) -> Option<Node>
        decreases path.len(),
    {
        if path.len() == 0 {
            Some(self)
        } else if self.nexts@.contains_key(path[0]) {
            self.nexts@[path[0]].descend(path.skip(1))
        } else {
            None
        }
    }
}

impl View for Node {
    type V = Labels;

    /// The labels of the subtree, by path from this node; the empty path is the node itself.
    closed spec fn view(&self) -> Labels {
        Map::new(|p: Seq<u16>| self.descend(p) is Some, |p: Seq<u16>| self.descend(p).unwrap().st)
    }
}

impl View for Tree {
    type V = Labels;

    /// The labels of all nodes, by the path of alleles from the root set.
    closed spec fn view(&self) -> Labels {
        level_labels(self.roots@)
    }
}

impl Node {
    /// A node without children that ends no profile.
    pub fn new() -> (node: Self)
        ensures
            node@ == Map::<Seq<u16>, u16>::empty().insert(Seq::empty(), 0u16),
    {
        let node = Node { nexts: HashMap::new(), st: 0 };
        assert(node@ =~= Map::<Seq<u16>, u16>::empty().insert(Seq::empty(), 0u16)) by {
            assert forall|p: Seq<u16>| node.descend(p) is Some implies p =~= Seq::empty() by {}
        }
        node
    }

    /// The ST of the profile that ends at this node; the sentinel where none ends here.
    pub fn st(&self) -> (st: u16)
        ensures
            self@.contains_key(Seq::empty()),
            st == self@[Seq::empty()],
    {
        self.st
    }

    /// The child under allele `v`, if there is one.
    pub fn child(&self, v: u16) -> (out: Option<&Node>)
        ensures
            match out {
                Some(node) => self@.contains_key(seq![v]) && node@ == below(self@, v),
                None => !self@.contains_key(seq![v]),
            },
    {
        let out = self.nexts.get(&v);
        proof {
            if let Some(node) = out {
                assert forall|p: Seq<u16>| self.descend(seq![v] + p) == node.descend(p) by {
                    assert((seq![v] + p).skip(1) =~= p);
                }
                assert(node.descend(Seq::empty()) == Some(*node));
            }
        }
        out
    }

    /// Hangs `n` below this node under allele `v`, in place of any child already there.
    pub fn add_node(self, v: u16, n: Node) -> (node: Self)
        ensures
            node@ == attached(self@, v, n@),
    {
        let mut node = self;
        node.nexts.insert(v, n);
        node
    }
}

/// A node's labels are those below its children, and its own under the empty path.
proof fn lemma_node_labels(node: Node)
    ensures
        node@ == level_labels(node.nexts@).insert(Seq::empty(), node.st),
{
    let want = level_labels(node.nexts@).insert(Seq::empty(), node.st);
    assert forall|p: Seq<u16>|
        #![trigger node@.contains_key(p)]
        #![trigger want.contains_key(p)]
        node@.contains_key(p) == want.contains_key(p) && (node@.contains_key(p) ==> node@[p]
            == want[p]) by {
        if p.len() == 0 {
            assert(p =~= Seq::empty());
        }
    }
}

/// Below a set of siblings, the paths that start with an allele are those of its child.
proof fn lemma_level_child(level: Map<u16, Node>, allele: u16)
    ensures
        !level_labels(level).contains_key(Seq::empty()),
        !level.contains_key(allele) ==> forall|p: Seq<u16>|
            p.len() > 0 && p[0] == allele ==> !level_labels(level).contains_key(p),
        level.contains_key(allele) ==> level[allele]@.contains_key(Seq::empty()),
        level.contains_key(allele) ==> forall|p: Seq<u16>|
            p.len() > 0 && p[0] == allele ==> (level_labels(level).contains_key(p)
                <==> level[allele]@.contains_key(p.skip(1))),
        level.contains_key(allele) ==> forall|p: Seq<u16>|
            p.len() > 0 && p[0] == allele && level_labels(level).contains_key(p) ==> level_labels(
                level,
            )[p] == level[allele]@[p.skip(1)],
{
}

/// Putting a child under an allele replaces the paths that start with that allele.
proof fn lemma_level_insert(level: Map<u16, Node>, allele: u16, child: Node)
    ensures
        level_labels(level.insert(allele, child)) == attached(level_labels(level), allele, child@),
{
    let after = level.insert(allele, child);
    let want = attached(level_labels(level), allele, child@);
    assert forall|p: Seq<u16>|
        #![trigger level_labels(after).contains_key(p)]
        #![trigger want.contains_key(p)]
        level_labels(after).contains_key(p) == want.contains_key(p) && (level_labels(
            after,
        ).contains_key(p) ==> level_labels(after)[p] == want[p]) by {}
}

/// A new node under which the alleles of `all` from position `from` on lead down, one
/// node each, to a node labelled `st`. The chain is built from its far end upward.
fn new_chain(all: &Vec<u16>, from: usize, st: u16) -> (node: Node)
    requires
        from <= all.len(),
    ensures
        node@ == chain_labels(all@.skip(from as int), st),
{
    let mut last = Node { nexts: HashMap::new(), st };
    let mut i: usize = all.len();
    proof {
        let rest = all@.skip(i as int);
        assert forall|p: Seq<u16>| last.descend(p) is Some implies p =~= rest by {}
        assert forall|p: Seq<u16>| p.is_prefix_of(rest) implies p =~= rest by {}
    }
    while i > from
        invariant
            from <= i <= all.len(),
            last@ == chain_labels(all@.skip(i as int), st),
        decreases i,
    {
        i -= 1;
        last = Node::new().add_node(all[i], last);
        proof {
            assert(all@.skip(i as int).skip(1) =~= all@.skip(i + 1));
            lemma_chain_labels_step(all@.skip(i as int), st);
        }
    }
    last
}

/// Adds what `all` holds from position `index` on below a set of siblings: follows the
/// children that are there, and hangs a new chain where the first one is missing.
fn graft(level: &mut HashMap<u16, Node>, all: &Vec<u16>, index: usize, st: u16)
    requires
        index < all.len(),
    ensures
        level_labels(final(level)@) == with_chain(
            level_labels(old(level)@),
            all@.skip(index as int),
            st,
        ),
    decreases all.len() - index,
{
    let ghost before = level@;
    let ghost chain = all@.skip(index as int);
    let allele = all[index];
    proof {
        assert(chain.skip(1) =~= all@.skip(index + 1));
        lemma_level_child(before, allele);
    }
    match level.remove(&allele) {
        None => {
            let child = new_chain(all, index + 1, st);
            level.insert(allele, child);
            proof {
                lemma_level_insert(before, allele, child);
                lemma_attach_new_chain(level_labels(before), chain, st);
            }
        },
        Some(child) => {
            let mut child = child;
            let ghost was = child;
            if index + 1 < all.len() {
                graft(&mut child.nexts, all, index + 1, st);
            }
            level.insert(allele, child);
            proof {
                assert(level@ =~= before.insert(allele, child));
                lemma_level_insert(before, allele, child);
                lemma_node_labels(was);
                lemma_node_labels(child);
                lemma_attach_grown_child(level_labels(before), was@, chain, st);
            }
        },
    }
}

impl Tree {
    /// A trie that holds no profile.
    pub fn new() -> (tree: Self)
        ensures
            tree@ == Map::<Seq<u16>, u16>::empty(),
    {
        let tree = Tree { roots: HashMap::new() };
        tree
    }

    /// The node of the first level under allele `v`, if there is one.
    pub fn root(&self, v: u16) -> (out: Option<&Node>)
        ensures
            match out {
                Some(node) => self@.contains_key(seq![v]) && node@ == below(self@, v),
                None => !self@.contains_key(seq![v]),
            },
    {
        let out = self.roots.get(&v);
        proof {
            if let Some(node) = out {
                assert forall|p: Seq<u16>| reach(self.roots@, seq![v] + p) == node.descend(p) by {
                    assert((seq![v] + p).skip(1) =~= p);
                }
            }
        }
        out
    }

    /// Adds the profile with ST `st` and allele vector `alleles` to a trie for a schema of
    /// `loci` loci: follows the chain of the alleles as far as it is there, and adds the
    /// rest of it, with `st` on its last node. A chain that is there already stays as it
    /// is. A vector that has not one allele per locus is refused and the trie stays as it
    /// was.
    pub fn insert(&mut self, alleles: &Vec<u16>, loci: usize, st: u16) -> (done: Result<
        (),
        TypingError,
    >)
        ensures
            match done {
                Ok(_) => alleles@.len() == loci && final(self)@ == with_chain(
                    old(self)@,
                    alleles@,
                    st,
                ),
                Err(e) => alleles@.len() != loci && final(self)@ == old(self)@ && e == (
                TypingError::ProfileLengthMismatch { expected: loci, found: alleles.len() }),
            },
    {
        if alleles.len() != loci {
            return Err(TypingError::ProfileLengthMismatch { expected: loci, found: alleles.len() });
        }
        if alleles.len() > 0 {
            assert(alleles@.skip(0) =~= alleles@);
            graft(&mut self.roots, alleles, 0, st);
        }
        Ok(())
    }

    /// Adds the profile with ST `st` and allele vector `all` to the trie, where `h` is the
    /// locus schema, as [`Tree::insert`] does.
    pub fn add_chain(&mut self, all: Vec<u16>, h: Vec<String>, st: u16) -> (done: Result<
        (),
        TypingError,
    >)
        ensures
            match done {
                Ok(_) => all@.len() == h@.len() && final(self)@ == with_chain(old(self)@, all@, st),
                Err(e) => all@.len() != h@.len() && final(self)@ == old(self)@ && e == (
                TypingError::ProfileLengthMismatch { expected: h.len(), found: all.len() }),
            },
    {
        self.insert(&all, h.len(), st)
    }

    /// Walks the trie along `alleles` and gives the ST of the last node reached: it stops
    /// at the first allele that has no child, and gives the sentinel where it reached no
    /// node at all.
    pub fn walk(&self, alleles: &Vec<u16>) -> (st: u16)
        ensures
            st == resolved_st(self@, alleles@),
    {
        if alleles.len() == 0 {
            return 0;
        }
        let mut cur: &Node = match self.roots.get(&alleles[0]) {
            None => {
                return 0;
            },
            Some(node) => node,
        };
        let mut i: usize = 1;
        while i < alleles.len()
            invariant_except_break
                1 <= i <= alleles.len(),
                reach(self.roots@, alleles@.take(i as int)) == Some(*cur),
                matched_from(self@, alleles@, 0) == matched_from(self@, alleles@, i as nat),
            ensures
                1 <= i <= alleles.len(),
                reach(self.roots@, alleles@.take(i as int)) == Some(*cur),
                matched_from(self@, alleles@, 0) == i,
            decreases alleles.len() - i,
        {
            proof {
                lemma_reach_step(self.roots@, alleles@.take(i as int), alleles@[i as int]);
                assert(alleles@.take(i as int).push(alleles@[i as int]) =~= alleles@.take(i + 1));
            }
            match cur.nexts.get(&alleles[i]) {
                None => {
                    break ;
                },
                Some(node) => {
                    cur = node;
                    i += 1;
                },
            }
        }
        cur.st
    }
}

/// One more allele after `path` leads to the child under it, if both are there.
proof fn lemma_reach_step(level: Map<u16, Node>, path: Seq<u16>, allele: u16)
    requires
        path.len() > 0,
    ensures
        reach(level, path.push(allele)) == match reach(level, path) {
            Some(node) => if node.nexts@.contains_key(allele) {
                Some(node.nexts@[allele])
            } else {
                None
            },
            None => None,
        },
{
    assert(path.push(allele).skip(1) =~= path.skip(1).push(allele));
    if level.contains_key(path[0]) {
        lemma_descend_step(level[path[0]], path.skip(1), allele);
    }
}

/// One more allele after `path` leads from a node to the child under it likewise.
proof fn lemma_descend_step(top: Node, path: Seq<u16>, allele: u16)
    ensures
        top.descend(path.push(allele)) == match top.descend(path) {
            Some(node) => if node.nexts@.contains_key(allele) {
                Some(node.nexts@[allele])
            } else {
                None
            },
            None => None,
        },
    decreases path.len(),
{
    if path.len() == 0 {
        assert(path.push(allele).skip(1) =~= Seq::empty());
        assert(top.descend(path.push(allele)) == if top.nexts@.contains_key(allele) {
            top.nexts@[allele].descend(Seq::empty())
        } else {
            None
        });
    } else {
        assert(path.push(allele).skip(1) =~= path.skip(1).push(allele));
        if top.nexts@.contains_key(path[0]) {
            lemma_descend_step(top.nexts@[path[0]], path.skip(1), allele);
        }
    }
}

} // verus!
