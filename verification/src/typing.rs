//! Typing a sample: the trie compiled from a profile table, the walk along a sample's
//! allele calls, and the record that reports the outcome.

use crate::alleles::AlleleCall;
use crate::error::TypingError;
use crate::model::{compiled, entries_below, fits, resolved_st, trie_of, SENTINEL};
use crate::profiles::ProfileTable;
use crate::trie::Tree;
use vstd::prelude::*;
use vstd::string::StringExecFns;

verus! {

broadcast use vstd::std_specs::hash::group_hash_axioms;

/// The outcome of typing a sample. That no ST was found is an outcome, not a fault.
#[derive(Debug, Clone, Copy, PartialEq, Eq)]
pub enum Classification {
    /// The walk ended on the last node of a profile's chain, which has this ST.
    Resolved(u16),
    /// The walk ended on no node, or on one that ends no profile.
    Unresolved,
}

/// The outcome that an ST reported by the walk stands for.
pub open spec fn classification_of(st: u16) -> Classification {
    if st == SENTINEL {
        Classification::Unresolved
    } else {
        Classification::Resolved(st)
    }
}

/// The alleles of a list of calls, in its order.
pub open spec fn alleles_of(calls: Seq<(Seq<char>, u16)>) -> Seq<u16> {
    calls.map_values(|call: (Seq<char>, u16)| call.1)
}

/// Compiles the profiles of `table` into a trie.
///
/// Every profile must have one allele per locus of the schema. The first one that has
/// not, going by rising ST, is reported and no trie is made.
pub fn compile(table: &ProfileTable) -> (out: Result<Tree, TypingError>)
    ensures
        match out {
            Ok(tree) => tree@ == trie_of(table.vectors()) && forall|st: u16|
                fits(table.vectors(), table.schema().len(), st),
            Err(error) => exists|st: u16|
                {
                    &&& !fits(table.vectors(), table.schema().len(), st)
                    &&& forall|lower: u16|
                        lower < st ==> fits(table.vectors(), table.schema().len(), lower)
                    &&& error == (TypingError::ProfileLengthMismatch {
                        expected: table.loci.len(),
                        found: table.vectors()[st].len() as usize,
                    })
                },
        },
{
    let ghost vectors = table.vectors();
    let mut tree = Tree::new();
    let mut next: u32 = 0;
    while next < 0x1_0000
        invariant
            next <= 0x1_0000,
            vectors == table.vectors(),
            tree@ == compiled(entries_below(vectors, next as nat)),
            forall|st: u16| st < next ==> fits(vectors, table.schema().len(), st),
        decreases 0x1_0000 - next,
    {
        let st = next as u16;
        let ghost before = entries_below(vectors, next as nat);
        match table.profiles.get(&st) {
            None => {},
            Some(alleles) => {
                match tree.insert(alleles, table.loci.len(), st) {
                    Err(error) => {
                        proof {
                            let len = table.schema().len();
                            assert(!fits(vectors, len, st));
                            assert forall|lower: u16| lower < st implies fits(
                                vectors,
                                len,
                                lower,
                            ) by {}
                            assert(error == (TypingError::ProfileLengthMismatch {
                                expected: table.loci.len(),
                                found: vectors[st].len() as usize,
                            }));
                        }
                        return Err(error);
                    },
                    Ok(_) => {
                        assert(before.push((vectors[st], st)).drop_last() =~= before);
                    },
                }
            },
        }
        next += 1;
    }
    Ok(tree)
}

/// Types a sample: walks `tree` along the alleles of `calls`, which are taken to be in
/// the order of the schema, and tells whether the walk ended on a profile.
pub fn classify(tree: &Tree, calls: &Vec<AlleleCall>) -> (out: Classification)
    ensures
        out == classification_of(resolved_st(tree@, alleles_of(calls.deep_view()))),
{
    let mut alleles: Vec<u16> = Vec::new();
    let mut i: usize = 0;
    while i < calls.len()
        invariant
            i <= calls.len(),
            alleles@.len() == i,
            forall|j: int| 0 <= j < i ==> #[trigger] alleles@[j] == calls@[j].allele,
        decreases calls.len() - i,
    {
        alleles.push(calls[i].allele);
        i += 1;
    }
    assert(alleles@ =~= alleles_of(calls.deep_view()));
    let st = tree.walk(&alleles);
    if st == 0 {
        Classification::Unresolved
    } else {
        Classification::Resolved(st)
    }
}

/// The character that writes the digit `d`.
pub open spec fn digit_char(d: nat) -> char {
    ('0' as nat + d) as char
}

/// The decimal digits that write `n`.
pub open spec fn decimal(n: nat) -> Seq<char>
    decreases n,
{
    if n < 10 {
        seq![digit_char(n)]
    } else {
        decimal(n / 10).push(digit_char(n % 10))
    }
}

/// The names of the called loci, a tab after each.
pub open spec fn loci_line(calls: Seq<(Seq<char>, u16)>) -> Seq<char>
    decreases calls.len(),
{
    if calls.len() == 0 {
        Seq::empty()
    } else {
        loci_line(calls.drop_last()) + calls.last().0 + "\t"@
    }
}

/// The called alleles, a tab after each.
pub open spec fn alleles_line(calls: Seq<(Seq<char>, u16)>) -> Seq<char>
    decreases calls.len(),
{
    if calls.len() == 0 {
        Seq::empty()
    } else {
        alleles_line(calls.drop_last()) + decimal(calls.last().1 as nat) + "\t"@
    }
}

/// How an outcome is written: the ST, or `NF` where none was found.
pub open spec fn st_text(outcome: Classification) -> Seq<char> {
    match outcome {
        Classification::Resolved(st) => decimal(st as nat),
        Classification::Unresolved => "NF"@,
    }
}

/// The record that reports a sample: a header line that names the called loci, then the
/// sample's name, its ST and its alleles, each field followed by a tab.
pub open spec fn report_text(
    sample: Seq<char>,
    outcome: Classification,
    calls: Seq<(Seq<char>, u16)>,
) -> Seq<char> {
    "#Name\tST\t"@ + loci_line(calls) + "\n"@ + sample + "\t"@ + st_text(outcome) + "\t"@
        + alleles_line(calls)
}

/// The text of one digit.
fn digit_text(d: u16) -> (text: &'static str)
    requires
        d < 10,
    ensures
        text@ == seq![digit_char(d as nat)],
{
    proof {
        reveal_strlit("0");
        reveal_strlit("1");
        reveal_strlit("2");
        reveal_strlit("3");
        reveal_strlit("4");
        reveal_strlit("5");
        reveal_strlit("6");
        reveal_strlit("7");
        reveal_strlit("8");
        reveal_strlit("9");
    }
    match d {
        0 => "0",
        1 => "1",
        2 => "2",
        3 => "3",
        4 => "4",
        5 => "5",
        6 => "6",
        7 => "7",
        8 => "8",
        _ => "9",
    }
}

/// Appends the decimal digits of `n` to `text`.
fn push_decimal(text: &mut String, n: u16)
    ensures
        final(text)@ == old(text)@ + decimal(n as nat),
    decreases n,
{
    if n >= 10 {
        push_decimal(text, n / 10);
    }
    text.append(digit_text(n % 10));
    proof {
        if n >= 10 {
            assert(old(text)@ + decimal(n as nat) =~= (old(text)@ + decimal((n / 10) as nat)).push(
                digit_char((n % 10) as nat),
            ));
        }
    }
}

/// Writes the record that reports a sample called `sample`.
pub fn report(sample: &str, outcome: Classification, calls: &Vec<AlleleCall>) -> (text: String)
    ensures
        text@ == report_text(sample@, outcome, calls.deep_view()),
{
    let ghost list = calls.deep_view();
    let mut text = String::from_str("#Name\tST\t");
    let ghost head = text@;
    let mut i: usize = 0;
    while i < calls.len()
        invariant
            i <= calls.len(),
            list == calls.deep_view(),
            text@ == head + loci_line(list.take(i as int)),
        decreases calls.len() - i,
    {
        proof {
            assert(list.take(i + 1).drop_last() =~= list.take(i as int));
        }
        text.append(calls[i].locus.as_str());
        text.append("\t");
        i += 1;
    }
    assert(list.take(i as int) =~= list);
    text.append("\n");
    text.append(sample);
    text.append("\t");
    match outcome {
        Classification::Resolved(st) => {
            push_decimal(&mut text, st);
        },
        Classification::Unresolved => {
            text.append("NF");
        },
    }
    text.append("\t");
    let ghost front = text@;
    i = 0;
    while i < calls.len()
        invariant
            i <= calls.len(),
            list == calls.deep_view(),
            text@ == front + alleles_line(list.take(i as int)),
        decreases calls.len() - i,
    {
        proof {
            assert(list.take(i + 1).drop_last() =~= list.take(i as int));
        }
        push_decimal(&mut text, calls[i].allele);
        text.append("\t");
        i += 1;
    }
    text
}

} // verus!
