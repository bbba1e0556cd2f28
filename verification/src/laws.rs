//! What holds of every table that is loaded, of every call that is kept, of every trie
//! that is compiled and of every walk through one.

use crate::alleles::retained;
use crate::model::{
    compiled, entries_below, fits, matched, matched_from, resolved_st, trie_of, unambiguous,
    uniform, well_formed, Labels, SENTINEL,
};
use crate::profiles::{distinct_sts, row_alleles, row_st, table_of};
use vstd::prelude::*;

verus! {

/// Round trip: once a well-formed table is compiled, the walk along the allele vector of
/// any of its profiles reports that profile's ST.
pub proof fn law_round_trip(vectors: Map<u16, Seq<u16>>, len: nat, st: u16)
    requires
        well_formed(vectors, len),
        vectors.contains_key(st),
    ensures
        resolved_st(trie_of(vectors), vectors[st]) == st,
{
    let profiles = entries_below(vectors, 0x1_0000);
    lemma_entries(vectors, 0x1_0000);
    assert(uniform(profiles, len)) by {
        assert forall|i: int| 0 <= i < profiles.len() implies (#[trigger] profiles[i]).0.len()
            == len by {
            assert(fits(vectors, len, profiles[i].1));
        }
    }
    assert(unambiguous(profiles));
    let k = choose|k: int| 0 <= k < profiles.len() && profiles[k] == (vectors[st], st);
    lemma_profiles_round_trip(profiles, len, k);
}

/// Order independence: profiles that have one allele per locus, none of their allele
/// vectors listed with two STs, compile to the same trie in whatever order they are
/// inserted, so that every query is classified alike.
pub proof fn law_order_independent(
    first: Seq<(Seq<u16>, u16)>,
    second: Seq<(Seq<u16>, u16)>,
    len: nat,
    query: Seq<u16>,
)
    requires
        first.to_multiset() == second.to_multiset(),
        uniform(first, len),
        unambiguous(first),
    ensures
        compiled(first) == compiled(second),
        resolved_st(compiled(first), query) == resolved_st(compiled(second), query),
{
    first.to_multiset_ensures();
    second.to_multiset_ensures();
    assert forall|i: int| 0 <= i < first.len() implies second.contains(#[trigger] first[i]) by {
        assert(first.contains(first[i]));
        assert(first.to_multiset().count(first[i]) > 0);
    }
    assert forall|i: int| 0 <= i < second.len() implies first.contains(#[trigger] second[i]) by {
        assert(second.contains(second[i]));
        assert(second.to_multiset().count(second[i]) > 0);
    }
    lemma_same_profiles_same_trie(first, second, len);
}

/// A query whose first call has no entry in the root set is unresolved, whatever follows.
pub proof fn law_no_root_unresolved(m: Labels, query: Seq<u16>)
    requires
        query.len() == 0 || !m.contains_key(query.take(1)),
    ensures
        resolved_st(m, query) == SENTINEL,
{
}

/// Partial match: in the trie compiled from a table whose profiles have `len` alleles
/// each, a walk that follows fewer than `len` calls, because the next call has no child
/// or because the query ends, is unresolved. It never reports the ST of a profile that
/// shares the prefix and lies on another branch.
pub proof fn law_partial_match_unresolved(vectors: Map<u16, Seq<u16>>, len: nat, query: Seq<u16>)
    requires
        forall|st: u16| fits(vectors, len, st),
        matched(trie_of(vectors), query) < len,
    ensures
        resolved_st(trie_of(vectors), query) == SENTINEL,
{
    let profiles = entries_below(vectors, 0x1_0000);
    lemma_entries(vectors, 0x1_0000);
    assert(uniform(profiles, len)) by {
        assert forall|i: int| 0 <= i < profiles.len() implies (#[trigger] profiles[i]).0.len()
            == len by {
            assert(fits(vectors, len, profiles[i].1));
        }
    }
    lemma_short_walk_unresolved(profiles, len, query);
}

/// Depth: in the trie compiled from a table whose profiles have `len` alleles each, no
/// path is longer than `len`, a path of that length is the allele vector of a profile, and
/// a shorter one carries the sentinel.
pub proof fn law_depth(vectors: Map<u16, Seq<u16>>, len: nat, p: Seq<u16>)
    requires
        forall|st: u16| fits(vectors, len, st),
        trie_of(vectors).contains_key(p),
    ensures
        0 < p.len() <= len,
        p.len() == len ==> exists|st: u16| vectors.contains_key(st) && #[trigger] vectors[st] == p,
        p.len() < len ==> trie_of(vectors)[p] == SENTINEL,
{
    let profiles = entries_below(vectors, 0x1_0000);
    lemma_entries(vectors, 0x1_0000);
    lemma_compiled_paths(profiles, p);
    let i = choose|i: int| 0 <= i < profiles.len() && p.is_prefix_of((#[trigger] profiles[i]).0);
    let st = profiles[i].1;
    assert(fits(vectors, len, st));
    if p.len() == len {
        assert(p =~= vectors[st]) by {
            assert(vectors[st].subrange(0, len as int) =~= vectors[st]);
        }
    } else {
        assert forall|j: int| 0 <= j < profiles.len() implies (#[trigger] profiles[j]).0 != p by {
            assert(fits(vectors, len, profiles[j].1));
        }
        lemma_compiled_inner_label(profiles, p);
    }
}

/// Last row wins: of the rows that give one ST, the table holds the alleles of the last.
pub proof fn law_last_row_wins(rows: Seq<Seq<Seq<char>>>, at: Option<int>, i: int)
    requires
        0 <= i < rows.len(),
        forall|j: int| i < j < rows.len() ==> row_st(#[trigger] rows[j]) != row_st(rows[i]),
    ensures
        table_of(rows, at).contains_key(row_st(rows[i])),
        table_of(rows, at)[row_st(rows[i])] == row_alleles(rows[i], at),
    decreases rows.len(),
{
    if i < rows.len() - 1 {
        let init = rows.drop_last();
        assert(init[i] == rows[i]);
        assert forall|j: int| i < j < init.len() implies row_st(#[trigger] init[j]) != row_st(
            init[i],
        ) by {
            assert(init[j] == rows[j]);
        }
        law_last_row_wins(init, at, i);
        assert(row_st(rows[rows.len() - 1]) != row_st(rows[i]));
    }
}

/// Row order: rows of which no two give the same ST make the same table in whatever
/// order they are read.
pub proof fn law_row_order_immaterial(
    first: Seq<Seq<Seq<char>>>,
    second: Seq<Seq<Seq<char>>>,
    at: Option<int>,
)
    requires
        first.to_multiset() == second.to_multiset(),
        distinct_sts(first),
        distinct_sts(second),
    ensures
        table_of(first, at) == table_of(second, at),
{
    let a = table_of(first, at);
    let b = table_of(second, at);
    first.to_multiset_ensures();
    second.to_multiset_ensures();
    assert forall|st: u16|
        #![trigger a.contains_key(st)]
        #![trigger b.contains_key(st)]
        a.contains_key(st) == b.contains_key(st) && (a.contains_key(st) ==> a[st] == b[st]) by {
        lemma_table_sts(first, at, st);
        lemma_table_sts(second, at, st);
        if a.contains_key(st) {
            let i = choose|i: int| 0 <= i < first.len() && row_st(#[trigger] first[i]) == st;
            assert(first.contains(first[i]));
            assert(second.to_multiset().count(first[i]) > 0);
            assert(second.contains(first[i]));
            let j = choose|j: int| 0 <= j < second.len() && second[j] == first[i];
            law_last_row_wins(first, at, i);
            law_last_row_wins(second, at, j);
        }
        if b.contains_key(st) {
            let j = choose|j: int| 0 <= j < second.len() && row_st(#[trigger] second[j]) == st;
            assert(second.contains(second[j]));
            assert(first.to_multiset().count(second[j]) > 0);
            assert(first.contains(second[j]));
            let i = choose|i: int| 0 <= i < first.len() && first[i] == second[j];
            assert(row_st(first[i]) == st);
        }
    }
    assert(a =~= b);
}

/// First seen wins: where a locus has hits, the call kept for it is that of the first hit
/// among those with the highest score; where it has none, no call is kept.
pub proof fn law_first_best_is_retained(hits: Seq<(Seq<char>, u16, u32)>, locus: Seq<char>)
    ensures
        match retained(hits, locus) {
            None => forall|i: int| 0 <= i < hits.len() ==> (#[trigger] hits[i]).0 != locus,
            Some((allele, score)) => exists|i: int|
                {
                    &&& 0 <= i < hits.len()
                    &&& #[trigger] hits[i] == (locus, allele, score)
                    &&& forall|j: int|
                        0 <= j < hits.len() && (#[trigger] hits[j]).0 == locus ==> hits[j].2
                            <= score
                    &&& forall|j: int|
                        0 <= j < i && (#[trigger] hits[j]).0 == locus ==> hits[j].2 < score
                },
        },
    decreases hits.len(),
{
    if hits.len() > 0 {
        let init = hits.drop_last();
        let last = hits.len() - 1;
        law_first_best_is_retained(init, locus);
        assert forall|i: int| 0 <= i < init.len() implies #[trigger] init[i] == hits[i] by {}
        match retained(hits, locus) {
            None => {
                assert forall|i: int| 0 <= i < hits.len() implies (#[trigger] hits[i]).0
                    != locus by {
                    if i < last {
                        assert(init[i] == hits[i]);
                    }
                }
            },
            Some((allele, score)) => {
                if retained(init, locus) == Some((allele, score)) && !(hits[last].0 == locus
                    && hits[last].2 > score) {
                    let i = choose|i: int|
                        {
                            &&& 0 <= i < init.len()
                            &&& #[trigger] init[i] == (locus, allele, score)
                            &&& forall|j: int|
                                0 <= j < init.len() && (#[trigger] init[j]).0 == locus
                                    ==> init[j].2 <= score
                            &&& forall|j: int|
                                0 <= j < i && (#[trigger] init[j]).0 == locus ==> init[j].2
                                    < score
                        };
                    assert(hits[i] == (locus, allele, score));
                    assert forall|j: int|
                        0 <= j < hits.len() && (#[trigger] hits[j]).0 == locus implies hits[j].2
                        <= score by {
                        if j < last {
                            assert(init[j] == hits[j]);
                        }
                    }
                    assert forall|j: int|
                        0 <= j < i && (#[trigger] hits[j]).0 == locus implies hits[j].2
                        < score by {
                        assert(init[j] == hits[j]);
                    }
                } else {
                    assert(hits[last] == (locus, allele, score));
                    assert forall|j: int|
                        0 <= j < last && (#[trigger] hits[j]).0 == locus implies hits[j].2
                        < score by {
                        assert(init[j] == hits[j]);
                        if retained(init, locus) is Some {
                            let kept = retained(init, locus).unwrap();
                            assert(init[j].2 <= kept.1);
                        }
                    }
                }
            },
        }
    }
}

/// The profiles listed by rising ST are those of the table, each of them once.
pub proof fn lemma_entries(vectors: Map<u16, Seq<u16>>, bound: nat)
    requires
        bound <= 0x1_0000,
    ensures
        forall|i: int|
            0 <= i < entries_below(vectors, bound).len() ==> {
                let entry = #[trigger] entries_below(vectors, bound)[i];
                vectors.contains_key(entry.1) && entry.0 == vectors[entry.1] && entry.1 < bound
            },
        forall|st: u16|
            st < bound && vectors.contains_key(st) ==> entries_below(vectors, bound).contains(
                (#[trigger] vectors[st], st),
            ),
    decreases bound,
{
    if bound > 0 {
        let lower = entries_below(vectors, (bound - 1) as nat);
        let all = entries_below(vectors, bound);
        let top = (bound - 1) as u16;
        lemma_entries(vectors, (bound - 1) as nat);
        assert forall|st: u16| st < bound && vectors.contains_key(st) implies all.contains(
            (#[trigger] vectors[st], st),
        ) by {
            if st < top {
                let i = choose|i: int| 0 <= i < lower.len() && lower[i] == (vectors[st], st);
                assert(all[i] == (vectors[st], st));
            } else {
                assert(all[all.len() - 1] == (vectors[st], st));
            }
        }
    }
}

/// The paths of a compiled trie are the non-empty prefixes of its profiles' chains.
pub proof fn lemma_compiled_paths(profiles: Seq<(Seq<u16>, u16)>, p: Seq<u16>)
    ensures
        compiled(profiles).contains_key(p) <==> p.len() > 0 && exists|i: int|
            0 <= i < profiles.len() && p.is_prefix_of((#[trigger] profiles[i]).0),
    decreases profiles.len(),
{
    if profiles.len() > 0 {
        let init = profiles.drop_last();
        lemma_compiled_paths(init, p);
        if compiled(init).contains_key(p) {
            let i = choose|i: int| 0 <= i < init.len() && p.is_prefix_of((#[trigger] init[i]).0);
            assert(p.is_prefix_of(profiles[i].0));
        }
        if p.len() > 0 && exists|i: int|
            0 <= i < profiles.len() && p.is_prefix_of((#[trigger] profiles[i]).0) {
            let i = choose|i: int|
                0 <= i < profiles.len() && p.is_prefix_of((#[trigger] profiles[i]).0);
            if i < init.len() {
                assert(p.is_prefix_of(init[i].0));
            }
        }
    }
}

/// In a compiled trie, a path that is no profile's whole chain carries the sentinel.
pub proof fn lemma_compiled_inner_label(profiles: Seq<(Seq<u16>, u16)>, p: Seq<u16>)
    requires
        compiled(profiles).contains_key(p),
        forall|i: int| 0 <= i < profiles.len() ==> (#[trigger] profiles[i]).0 != p,
    ensures
        compiled(profiles)[p] == SENTINEL,
    decreases profiles.len(),
{
    if profiles.len() > 0 {
        let init = profiles.drop_last();
        assert(profiles.last() == profiles[profiles.len() - 1]);
        if compiled(init).contains_key(p) {
            assert forall|i: int| 0 <= i < init.len() implies (#[trigger] init[i]).0 != p by {
                assert(init[i] == profiles[i]);
            }
            lemma_compiled_inner_label(init, p);
        }
    }
}

/// In a trie compiled from chains of one length, none of them listed with two STs, the
/// end of each chain carries that chain's ST.
pub proof fn lemma_compiled_end_label(profiles: Seq<(Seq<u16>, u16)>, len: nat, k: int)
    requires
        uniform(profiles, len),
        unambiguous(profiles),
        len > 0,
        0 <= k < profiles.len(),
    ensures
        compiled(profiles).contains_key(profiles[k].0),
        compiled(profiles)[profiles[k].0] == profiles[k].1,
    decreases profiles.len(),
{
    let p = profiles[k].0;
    let init = profiles.drop_last();
    let last = profiles[profiles.len() - 1];
    assert(profiles.last() == last);
    assert(p.is_prefix_of(p)) by {
        assert(p =~= p.subrange(0, p.len() as int));
    }
    lemma_compiled_paths(profiles, p);
    lemma_compiled_paths(init, p);
    assert forall|i: int| 0 <= i < init.len() implies #[trigger] init[i] == profiles[i] by {}
    if compiled(init).contains_key(p) {
        let i = choose|i: int| 0 <= i < init.len() && p.is_prefix_of((#[trigger] init[i]).0);
        assert(init[i] == profiles[i]);
        assert(p =~= init[i].0) by {
            assert(p.len() == init[i].0.len());
            assert(init[i].0.subrange(0, p.len() as int) =~= init[i].0);
        }
        assert(uniform(init, len));
        assert(unambiguous(init)) by {
            assert forall|a: int, b: int|
                0 <= a < init.len() && 0 <= b < init.len() && (#[trigger] init[a]).0 == (
                #[trigger] init[b]).0 implies init[a].1 == init[b].1 by {
                assert(init[a] == profiles[a]);
                assert(init[b] == profiles[b]);
            }
        }
        lemma_compiled_end_label(init, len, i);
    } else {
        if k < init.len() {
            assert(p.is_prefix_of(init[k].0));
        }
    }
}

/// In the trie compiled from chains of one length, none of them listed with two STs, the
/// walk along any of the chains reports that chain's ST.
pub proof fn lemma_profiles_round_trip(profiles: Seq<(Seq<u16>, u16)>, len: nat, k: int)
    requires
        uniform(profiles, len),
        unambiguous(profiles),
        len > 0,
        0 <= k < profiles.len(),
    ensures
        resolved_st(compiled(profiles), profiles[k].0) == profiles[k].1,
{
    let m = compiled(profiles);
    let chain = profiles[k].0;
    assert forall|n: int| 0 < n <= len implies m.contains_key(#[trigger] chain.take(n)) by {
        lemma_compiled_paths(profiles, chain.take(n));
        assert(chain.take(n).is_prefix_of(profiles[k].0));
    }
    lemma_followed_to(m, chain, 0, len);
    lemma_compiled_end_label(profiles, len, k);
    assert(chain.take(len as int) =~= chain);
}

/// The trie compiled from a list of profiles depends only on which profiles it lists.
pub proof fn lemma_same_profiles_same_trie(
    first: Seq<(Seq<u16>, u16)>,
    second: Seq<(Seq<u16>, u16)>,
    len: nat,
)
    requires
        forall|i: int| 0 <= i < first.len() ==> second.contains(#[trigger] first[i]),
        forall|i: int| 0 <= i < second.len() ==> first.contains(#[trigger] second[i]),
        uniform(first, len),
        unambiguous(first),
    ensures
        compiled(first) == compiled(second),
{
    let a = compiled(first);
    let b = compiled(second);
    assert(uniform(second, len)) by {
        assert forall|i: int| 0 <= i < second.len() implies (#[trigger] second[i]).0.len()
            == len by {
            let j = choose|j: int| 0 <= j < first.len() && first[j] == second[i];
            assert(first[j].0.len() == len);
        }
    }
    assert(unambiguous(second)) by {
        assert forall|i: int, j: int|
            0 <= i < second.len() && 0 <= j < second.len() && (#[trigger] second[i]).0 == (
            #[trigger] second[j]).0 implies second[i].1 == second[j].1 by {
            let x = choose|x: int| 0 <= x < first.len() && first[x] == second[i];
            let y = choose|y: int| 0 <= y < first.len() && first[y] == second[j];
            assert(first[x].0 == first[y].0);
        }
    }
    assert forall|p: Seq<u16>|
        #![trigger a.contains_key(p)]
        #![trigger b.contains_key(p)]
        a.contains_key(p) == b.contains_key(p) && (a.contains_key(p) ==> a[p] == b[p]) by {
        lemma_compiled_paths(first, p);
        lemma_compiled_paths(second, p);
        if a.contains_key(p) {
            let i = choose|i: int| 0 <= i < first.len() && p.is_prefix_of((#[trigger] first[i]).0);
            let j = choose|j: int| 0 <= j < second.len() && second[j] == first[i];
            assert(p.is_prefix_of(second[j].0));
        }
        if b.contains_key(p) {
            let i = choose|i: int|
                0 <= i < second.len() && p.is_prefix_of((#[trigger] second[i]).0);
            let j = choose|j: int| 0 <= j < first.len() && first[j] == second[i];
            assert(p.is_prefix_of(first[j].0));
        }
        if a.contains_key(p) {
            lemma_label_by_profiles(first, second, len, p);
        }
    }
    assert(a =~= b);
}

/// Two lists of the same profiles label a common path alike.
proof fn lemma_label_by_profiles(
    first: Seq<(Seq<u16>, u16)>,
    second: Seq<(Seq<u16>, u16)>,
    len: nat,
    p: Seq<u16>,
)
    requires
        forall|i: int| 0 <= i < first.len() ==> second.contains(#[trigger] first[i]),
        forall|i: int| 0 <= i < second.len() ==> first.contains(#[trigger] second[i]),
        uniform(first, len),
        unambiguous(first),
        uniform(second, len),
        unambiguous(second),
        compiled(first).contains_key(p),
        compiled(second).contains_key(p),
    ensures
        compiled(first)[p] == compiled(second)[p],
{
    lemma_compiled_paths(first, p);
    if exists|i: int| 0 <= i < first.len() && (#[trigger] first[i]).0 == p {
        let i = choose|i: int| 0 <= i < first.len() && (#[trigger] first[i]).0 == p;
        let j = choose|j: int| 0 <= j < second.len() && second[j] == first[i];
        assert(len > 0);
        lemma_compiled_end_label(first, len, i);
        lemma_compiled_end_label(second, len, j);
    } else {
        assert forall|j: int| 0 <= j < second.len() implies (#[trigger] second[j]).0 != p by {
            let i = choose|i: int| 0 <= i < first.len() && first[i] == second[j];
            assert(first[i].0 != p);
        }
        lemma_compiled_inner_label(first, p);
        lemma_compiled_inner_label(second, p);
    }
}

/// In a trie compiled from chains of `len` alleles, a path shorter than that carries the
/// sentinel, so a walk that stops after fewer than `len` calls reports it.
pub proof fn lemma_short_walk_unresolved(
    profiles: Seq<(Seq<u16>, u16)>,
    len: nat,
    query: Seq<u16>,
)
    requires
        uniform(profiles, len),
        matched(compiled(profiles), query) < len,
    ensures
        resolved_st(compiled(profiles), query) == SENTINEL,
{
    let m = compiled(profiles);
    let k = matched(m, query);
    if k > 0 {
        lemma_matched_bounds(m, query, 0);
        lemma_stops_on_path(m, query, 0);
        let p = query.take(k as int);
        assert forall|i: int| 0 <= i < profiles.len() implies (#[trigger] profiles[i]).0 != p by {
            assert(profiles[i].0.len() == len);
            assert(p.len() == k);
        }
        lemma_compiled_inner_label(profiles, p);
    }
}

/// The walk goes on as long as each longer prefix of the query is a path.
pub proof fn lemma_followed_to(m: Labels, query: Seq<u16>, from: nat, to: nat)
    requires
        from <= to <= query.len(),
        forall|n: int| from < n <= to ==> m.contains_key(#[trigger] query.take(n)),
    ensures
        matched_from(m, query, from) == matched_from(m, query, to),
    decreases to - from,
{
    if from < to {
        assert(m.contains_key(query.take(from + 1 as int)));
        lemma_followed_to(m, query, from + 1, to);
    }
}

/// The walk never goes past the query, nor back.
pub proof fn lemma_matched_bounds(m: Labels, query: Seq<u16>, from: nat)
    requires
        from <= query.len(),
    ensures
        from <= matched_from(m, query, from) <= query.len(),
    decreases query.len() - from,
{
    if from < query.len() && m.contains_key(query.take(from + 1 as int)) {
        lemma_matched_bounds(m, query, from + 1);
    }
}

/// Where the walk advances at all, the prefix it stops at is a path.
pub proof fn lemma_stops_on_path(m: Labels, query: Seq<u16>, from: nat)
    requires
        from <= query.len(),
        from > 0 ==> m.contains_key(query.take(from as int)),
    ensures
        matched_from(m, query, from) > 0 ==> m.contains_key(
            query.take(matched_from(m, query, from) as int),
        ),
    decreases query.len() - from,
{
    if from < query.len() && m.contains_key(query.take(from + 1 as int)) {
        lemma_stops_on_path(m, query, from + 1);
    }
}

/// The STs of a table are those of the rows it was made from.
pub proof fn lemma_table_sts(rows: Seq<Seq<Seq<char>>>, at: Option<int>, st: u16)
    ensures
        table_of(rows, at).contains_key(st) <==> exists|i: int|
            0 <= i < rows.len() && row_st(#[trigger] rows[i]) == st,
    decreases rows.len(),
{
    if rows.len() > 0 {
        let init = rows.drop_last();
        lemma_table_sts(init, at, st);
        if table_of(init, at).contains_key(st) {
            let i = choose|i: int| 0 <= i < init.len() && row_st(#[trigger] init[i]) == st;
            assert(row_st(rows[i]) == st);
        }
        if exists|i: int| 0 <= i < rows.len() && row_st(#[trigger] rows[i]) == st {
            let i = choose|i: int| 0 <= i < rows.len() && row_st(#[trigger] rows[i]) == st;
            if i < init.len() {
                assert(row_st(init[i]) == st);
            }
        }
    }
}

} // verus!
