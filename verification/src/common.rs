//! Rules on collections of digits.

use itertools::Itertools;
use vstd::prelude::*;

verus! {

/// No digit other than zero occurs twice. Zero stands for an empty cell and
/// may occur any number of times.
pub open spec fn unique_digits(s: Seq<u8>) -> bool {
    forall|i: int, j: int| 0 <= i < j < s.len() && s[i] != 0 ==> s[i] != s[j]
}

/// The sequence without its zeros, in the same order.
pub open spec fn without_zeros(s: Seq<u8>) -> Seq<u8>
    decreases s.len(),
{
    if s.len() == 0 {
        s
    } else if s.last() == 0 {
        without_zeros(s.drop_last())
    } else {
        without_zeros(s.drop_last()).push(s.last())
    }
}

/// The values of a sequence in the order in which they first occur, each
/// once.
pub open spec fn distinct(s: Seq<u8>) -> Seq<u8>
    decreases s.len(),
{
    if s.len() == 0 {
        s
    } else if distinct(s.drop_last()).contains(s.last()) {
        distinct(s.drop_last())
    } else {
        distinct(s.drop_last()).push(s.last())
    }
}

/// Calls `Itertools::unique` on the values and collects what it yields.
///
/// The adaptor hands on each item whose value it has not handed on before and
/// drops the others, so the result holds the first occurrence of every value,
/// in the order of the input. This is taken from the adaptor's source, not
/// proved.
#[verifier::external_body]
pub(crate) fn unique(values: Vec<u8>) -> (firsts: Vec<u8>)
    ensures
        firsts@ == distinct(values@),
{
    values.into_iter().unique().collect()
}

/// A value is among the distinct values exactly if it is in the sequence;
/// the distinct values hold nothing twice and are no more than the sequence.
pub proof fn lemma_distinct(s: Seq<u8>)
    ensures
        distinct(s).no_duplicates(),
        forall|v: u8|
            #![trigger distinct(s).contains(v)]
            #![trigger s.contains(v)]
            distinct(s).contains(v) <==> s.contains(v),
        distinct(s).len() <= s.len(),
    decreases s.len(),
{
    if s.len() > 0 {
        let init = s.drop_last();
        let d = distinct(init);
        lemma_distinct(init);
        assert forall|v: u8|
            #![trigger distinct(s).contains(v)]
            #![trigger s.contains(v)]
            distinct(s).contains(v) <==> s.contains(v) by {
            if s.contains(v) {
                let i = choose|i: int| 0 <= i < s.len() && s[i] == v;
                if i < s.len() - 1 {
                    assert(init[i] == v);
                    assert(init.contains(v));
                    let k = choose|k: int| 0 <= k < d.len() && d[k] == v;
                    assert(distinct(s)[k] == v);
                } else if !d.contains(v) {
                    assert(distinct(s)[d.len() as int] == v);
                }
            }
            if distinct(s).contains(v) {
                let k = choose|k: int| 0 <= k < distinct(s).len() && distinct(s)[k] == v;
                if k < d.len() {
                    assert(d[k] == v);
                    assert(d.contains(v));
                    let i = choose|i: int| 0 <= i < init.len() && init[i] == v;
                    assert(s[i] == v);
                } else {
                    assert(s[s.len() - 1] == v);
                }
            }
        }
    }
}

/// The distinct values are as many as the sequence exactly if the sequence
/// holds nothing twice, and then they are the sequence.
pub proof fn lemma_distinct_len(s: Seq<u8>)
    ensures
        distinct(s).len() == s.len() <==> s.no_duplicates(),
        s.no_duplicates() ==> distinct(s) == s,
    decreases s.len(),
{
    if s.len() > 0 {
        let init = s.drop_last();
        lemma_distinct_len(init);
        lemma_distinct(init);
        if s.no_duplicates() {
            assert(init.no_duplicates());
            if init.contains(s.last()) {
                let i = choose|i: int| 0 <= i < init.len() && init[i] == s.last();
                assert(s[i] == s[s.len() - 1]);
            }
            assert(distinct(s) =~= s);
        }
        if distinct(s).len() == s.len() {
            assert(!distinct(init).contains(s.last()));
            assert(init.no_duplicates());
            assert forall|i: int, j: int| 0 <= i < s.len() && 0 <= j < s.len() && i != j implies s[i]
                != s[j] by {
                if i == s.len() - 1 {
                    assert(init[j] == s[j]);
                    assert(init.contains(s[j]));
                } else if j == s.len() - 1 {
                    assert(init[i] == s[i]);
                    assert(init.contains(s[i]));
                } else {
                    assert(init[i] == s[i] && init[j] == s[j]);
                }
            }
        }
    }
}

/// The first occurrences are as many as the sequence has different values;
/// those are as many as the sequence is long exactly if it holds nothing
/// twice.
pub proof fn lemma_distinct_count(s: Seq<u8>)
    ensures
        distinct(s).len() == s.to_set().len(),
        s.to_set().len() <= s.len(),
        s.to_set().len() == s.len() <==> s.no_duplicates(),
{
    lemma_distinct(s);
    lemma_distinct_len(s);
    distinct(s).unique_seq_to_set();
    assert(distinct(s).to_set() =~= s.to_set());
}

/// What is left without the zeros are the non-zero values of the sequence.
pub proof fn lemma_without_zeros(s: Seq<u8>)
    ensures
        forall|v: u8|
            #![trigger without_zeros(s).contains(v)]
            #![trigger s.contains(v)]
            without_zeros(s).contains(v) <==> v != 0 && s.contains(v),
        without_zeros(s).no_duplicates() <==> unique_digits(s),
        without_zeros(s).len() <= s.len(),
    decreases s.len(),
{
    if s.len() > 0 {
        let init = s.drop_last();
        let w = without_zeros(init);
        let last = s.last();
        lemma_without_zeros(init);
        assert forall|v: u8|
            #![trigger without_zeros(s).contains(v)]
            #![trigger s.contains(v)]
            without_zeros(s).contains(v) <==> v != 0 && s.contains(v) by {
            if v != 0 && s.contains(v) {
                let i = choose|i: int| 0 <= i < s.len() && s[i] == v;
                if i < s.len() - 1 {
                    assert(init[i] == v);
                    assert(init.contains(v));
                    let k = choose|k: int| 0 <= k < w.len() && w[k] == v;
                    assert(without_zeros(s)[k] == v);
                } else {
                    assert(without_zeros(s)[w.len() as int] == v);
                }
            }
            if without_zeros(s).contains(v) {
                let k = choose|k: int| 0 <= k < without_zeros(s).len() && without_zeros(s)[k] == v;
                if k < w.len() {
                    assert(w[k] == v);
                    assert(w.contains(v));
                    let i = choose|i: int| 0 <= i < init.len() && init[i] == v;
                    assert(s[i] == v);
                } else {
                    assert(s[s.len() - 1] == v);
                }
            }
        }
        if unique_digits(s) {
            assert(unique_digits(init)) by {
                assert forall|i: int, j: int| 0 <= i < j < init.len() && init[i] != 0 implies init[i]
                    != init[j] by {
                    assert(s[i] == init[i] && s[j] == init[j]);
                }
            }
            if last != 0 && w.contains(last) {
                let i = choose|i: int| 0 <= i < init.len() && init[i] == last;
                assert(s[i] == s[s.len() - 1]);
            }
            assert(without_zeros(s).no_duplicates());
        }
        if without_zeros(s).no_duplicates() {
            if last != 0 {
                assert(w.no_duplicates()) by {
                    assert forall|i: int, j: int| 0 <= i < w.len() && 0 <= j < w.len() && i != j implies w[i]
                        != w[j] by {
                        assert(without_zeros(s)[i] == w[i] && without_zeros(s)[j] == w[j]);
                    }
                }
                if w.contains(last) {
                    let k = choose|k: int| 0 <= k < w.len() && w[k] == last;
                    assert(without_zeros(s)[k] == without_zeros(s)[w.len() as int]);
                }
            }
            assert forall|i: int, j: int| 0 <= i < j < s.len() && s[i] != 0 implies s[i] != s[j] by {
                if j < s.len() - 1 {
                    assert(init[i] == s[i] && init[j] == s[j]);
                } else {
                    assert(init[i] == s[i]);
                    assert(init.contains(s[i]));
                }
            }
        }
    }
}

/// Tests whether a value occurs among some values.
pub fn holds(values: &Vec<u8>, value: u8) -> (found: bool)
    ensures
        found == values@.contains(value),
{
    let mut i: usize = 0;
    while i < values.len()
        invariant
            i <= values.len(),
            forall|j: int| 0 <= j < i ==> values[j] != value,
        decreases values.len() - i,
    {
        if values[i] == value {
            return true;
        }
        i += 1;
    }
    false
}

/// The non-zero values of `digits`, in the same order.
pub fn nonzero_values(digits: &Vec<u8>) -> (kept: Vec<u8>)
    ensures
        kept@ == without_zeros(digits@),
{
    let mut kept: Vec<u8> = Vec::new();
    let mut i: usize = 0;
    while i < digits.len()
        invariant
            i <= digits.len(),
            kept@ == without_zeros(digits@.take(i as int)),
        decreases digits.len() - i,
    {
        assert(digits@.take(i + 1).drop_last() =~= digits@.take(i as int));
        if digits[i] != 0 {
            kept.push(digits[i]);
        }
        i += 1;
    }
    assert(digits@.take(i as int) =~= digits@);
    kept
}

/// Tests whether the digits other than zero are all different.
pub fn has_only_unique_digits(digits: &Vec<u8>) -> (unique: bool)
    ensures
        unique == unique_digits(digits@),
{
    let nonzero = nonzero_values(digits);
    let length: usize = nonzero.len();
    let firsts = self::unique(nonzero);
    proof {
        lemma_without_zeros(digits@);
        lemma_distinct_len(without_zeros(digits@));
    }
    length == firsts.len()
}

} // verus!
