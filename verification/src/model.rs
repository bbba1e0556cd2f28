//! The mathematical model of a profile trie.
//!
//! A trie is modelled by the labels of its nodes: a map from the path of allele
//! numbers leading to a node (never empty for a tree, since the first level is
//! keyed by the allele at locus 0) to the ST that the node carries. A node that
//! ends no profile carries the sentinel `0`.

use vstd::prelude::*;

verus! {

/// The ST that stands for "no classification".
pub const SENTINEL: u16 = 0;

/// The labels of a trie, by path.
pub type Labels = Map<Seq<u16>, u16>;

/// `m` after the allele chain `chain`, ending in `st`, has been added to it.
///
/// Every non-empty prefix of the chain is a path afterwards. A node that was there
/// before keeps its label; of the new ones only the end of the chain is labelled.
pub open spec fn with_chain(m: Labels, chain: Seq<u16>, st: u16) -> Labels {
    Map::new(
        |p: Seq<u16>| m.contains_key(p) || (p.len() > 0 && p.is_prefix_of(chain)),
        |p: Seq<u16>|
            if m.contains_key(p) {
                m[p]
            } else if p == chain {
                st
            } else {
                SENTINEL
            },
    )
}

/// `m` after each of `profiles`, a list of chains with their STs, has been added in turn.
pub open spec fn with_chains(m: Labels, profiles: Seq<(Seq<u16>, u16)>) -> Labels
    decreases profiles.len(),
{
    if profiles.len() == 0 {
        m
    } else {
        with_chain(with_chains(m, profiles.drop_last()), profiles.last().0, profiles.last().1)
    }
}

/// Every chain of `profiles` has `len` alleles.
pub open spec fn uniform(profiles: Seq<(Seq<u16>, u16)>, len: nat) -> bool {
    forall|i: int| 0 <= i < profiles.len() ==> (#[trigger] profiles[i]).0.len() == len
}

/// No chain of `profiles` is listed with two different STs.
pub open spec fn unambiguous(profiles: Seq<(Seq<u16>, u16)>) -> bool {
    forall|i: int, j: int|
        0 <= i < profiles.len() && 0 <= j < profiles.len() && (#[trigger] profiles[i]).0 == (
        #[trigger] profiles[j]).0 ==> profiles[i].1 == profiles[j].1
}

/// The trie compiled from `profiles` alone.
pub open spec fn compiled(profiles: Seq<(Seq<u16>, u16)>) -> Labels {
    with_chains(Map::empty(), profiles)
}

/// The profiles of a table whose ST is below `bound`, each as its allele vector and its ST,
/// by rising ST.
pub open spec fn entries_below(vectors: Map<u16, Seq<u16>>, bound: nat) -> Seq<(Seq<u16>, u16)>
    decreases bound,
{
    if bound == 0 {
        Seq::empty()
    } else {
        let lower = entries_below(vectors, (bound - 1) as nat);
        let st = (bound - 1) as u16;
        if vectors.contains_key(st) {
            lower.push((vectors[st], st))
        } else {
            lower
        }
    }
}

/// The trie that a profile table compiles to: its profiles are inserted by rising ST.
pub open spec fn trie_of(vectors: Map<u16, Seq<u16>>) -> Labels {
    compiled(entries_below(vectors, 0x1_0000))
}

/// Whether the profile with ST `st`, if the table has one, has `len` alleles.
pub open spec fn fits(vectors: Map<u16, Seq<u16>>, len: nat, st: u16) -> bool {
    vectors.contains_key(st) ==> vectors[st].len() == len
}

/// Whether a table with `len` loci is well formed: it has a locus, each of its profiles
/// has one allele per locus, and no two of them have the same allele vector.
pub open spec fn well_formed(vectors: Map<u16, Seq<u16>>, len: nat) -> bool {
    &&& len > 0
    &&& forall|st: u16| fits(vectors, len, st)
    &&& forall|a: u16, b: u16|
        vectors.contains_key(a) && vectors.contains_key(b) && #[trigger] vectors[a]
            == #[trigger] vectors[b] ==> a == b
}

/// The labels of a node `parent` once the subtree `child` hangs below it under allele `v`,
/// in place of whatever hung there before. Both are given by path from their own top,
/// the empty path standing for the top itself.
pub open spec fn attached(parent: Labels, v: u16, child: Labels) -> Labels {
    Map::new(
        |p: Seq<u16>|
            if p.len() > 0 && p[0] == v {
                child.contains_key(p.skip(1))
            } else {
                parent.contains_key(p)
            },
        |p: Seq<u16>|
            if p.len() > 0 && p[0] == v {
                child[p.skip(1)]
            } else {
                parent[p]
            },
    )
}

/// The labels of the subtree that hangs under allele `v`, by path from its top.
pub open spec fn below(m: Labels, v: u16) -> Labels {
    Map::new(|p: Seq<u16>| m.contains_key(seq![v] + p), |p: Seq<u16>| m[seq![v] + p])
}

/// How many leading calls of `query` the walk follows when `k` of them are behind it:
/// it advances while the next longer prefix is a path, and stops at the first miss.
pub open spec fn matched_from(m: Labels, query: Seq<u16>, k: nat) -> nat
    decreases query.len() - k,
{
    if k < query.len() && m.contains_key(query.take(k + 1 as int)) {
        matched_from(m, query, k + 1)
    } else {
        k
    }
}

/// How many leading calls of `query` the walk follows from the root set.
pub open spec fn matched(m: Labels, query: Seq<u16>) -> nat {
    matched_from(m, query, 0)
}

/// The ST that the walk reports for `query`: the label of the last node it reached,
/// or the sentinel where not even the first call has a root entry.
pub open spec fn resolved_st(m: Labels, query: Seq<u16>) -> u16 {
    let k = matched(m, query);
    if k == 0 {
        SENTINEL
    } else {
        m[query.take(k as int)]
    }
}

/// The labels of a lone chain, by path from the node above it: `rest` leads down to a
/// node labelled `st`, and every node before that one carries the sentinel.
pub open spec fn chain_labels(rest: Seq<u16>, st: u16) -> Labels {
    Map::new(
        |p: Seq<u16>| p.is_prefix_of(rest),
        |p: Seq<u16>|
            if p == rest {
                st
            } else {
                SENTINEL
            },
    )
}

/// A non-empty path is a prefix of a non-empty chain, or the chain itself, exactly when
/// both start alike and the same holds of what follows the start.
pub proof fn lemma_prefix_step(p: Seq<u16>, chain: Seq<u16>)
    requires
        p.len() > 0,
        chain.len() > 0,
    ensures
        p.is_prefix_of(chain) <==> p[0] == chain[0] && p.skip(1).is_prefix_of(chain.skip(1)),
        p == chain <==> p[0] == chain[0] && p.skip(1) == chain.skip(1),
{
    let q = p.skip(1);
    let tail = chain.skip(1);
    if p[0] == chain[0] && q.is_prefix_of(tail) {
        assert forall|i: int| 0 <= i < p.len() implies p[i] == chain[i] by {
            if i > 0 {
                assert(p[i] == q[i - 1]);
            }
        }
    }
    if p[0] == chain[0] && q == tail {
        assert(p =~= chain);
    }
}

/// A fresh node above a lone chain is the chain that starts one allele earlier.
pub proof fn lemma_chain_labels_step(chain: Seq<u16>, st: u16)
    requires
        chain.len() > 0,
    ensures
        attached(
            Map::<Seq<u16>, u16>::empty().insert(Seq::empty(), SENTINEL),
            chain[0],
            chain_labels(chain.skip(1), st),
        ) == chain_labels(chain, st),
{
    let top = Map::<Seq<u16>, u16>::empty().insert(Seq::empty(), SENTINEL);
    let got = attached(top, chain[0], chain_labels(chain.skip(1), st));
    let want = chain_labels(chain, st);
    assert forall|p: Seq<u16>|
        #![trigger got.contains_key(p)]
        #![trigger want.contains_key(p)]
        got.contains_key(p) == want.contains_key(p) && (got.contains_key(p) ==> got[p] == want[p]) by {
        if p.len() > 0 {
            lemma_prefix_step(p, chain);
        } else {
            assert(p =~= Seq::empty());
        }
    }
}

/// Hanging a lone chain under an allele that led nowhere adds that allele and the chain.
pub proof fn lemma_attach_new_chain(m: Labels, chain: Seq<u16>, st: u16)
    requires
        chain.len() > 0,
        forall|p: Seq<u16>| p.len() > 0 && p[0] == chain[0] ==> !m.contains_key(p),
        !m.contains_key(Seq::empty()),
    ensures
        attached(m, chain[0], chain_labels(chain.skip(1), st)) == with_chain(m, chain, st),
{
    let got = attached(m, chain[0], chain_labels(chain.skip(1), st));
    let want = with_chain(m, chain, st);
    assert forall|p: Seq<u16>|
        #![trigger got.contains_key(p)]
        #![trigger want.contains_key(p)]
        got.contains_key(p) == want.contains_key(p) && (got.contains_key(p) ==> got[p] == want[p]) by {
        if p.len() > 0 {
            lemma_prefix_step(p, chain);
        }
    }
}

/// Adding the rest of a chain below the child under its first allele adds the chain.
/// `child` holds the labels of that child, by path from it, as they were before.
pub proof fn lemma_attach_grown_child(m: Labels, child: Labels, chain: Seq<u16>, st: u16)
    requires
        chain.len() > 0,
        child.contains_key(Seq::empty()),
        forall|p: Seq<u16>|
            p.len() > 0 && p[0] == chain[0] ==> (m.contains_key(p) <==> child.contains_key(
                p.skip(1),
            )),
        forall|p: Seq<u16>|
            p.len() > 0 && p[0] == chain[0] && m.contains_key(p) ==> m[p] == child[p.skip(1)],
    ensures
        attached(m, chain[0], with_chain(child, chain.skip(1), st)) == with_chain(m, chain, st),
{
    let got = attached(m, chain[0], with_chain(child, chain.skip(1), st));
    let want = with_chain(m, chain, st);
    assert forall|p: Seq<u16>|
        #![trigger got.contains_key(p)]
        #![trigger want.contains_key(p)]
        got.contains_key(p) == want.contains_key(p) && (got.contains_key(p) ==> got[p] == want[p]) by {
        if p.len() > 0 {
            lemma_prefix_step(p, chain);
            if p[0] == chain[0] && p.len() == 1 {
                assert(p.skip(1) =~= Seq::empty());
            }
        }
    }
}

} // verus!
