//! What searching, splitting and reading numbers mean, byte by byte.

use vstd::prelude::*;

use crate::bytes::{all_digits, decimal, find, index_of, number, occurs_at};
use crate::bytes::{lemma_find, lemma_find_unique, lemma_index_of_unique};

verus! {

/// A byte is found behind whatever does not hold it.
pub proof fn law_byte_is_found_behind_others(before: Seq<u8>, byte: u8, after: Seq<u8>)
    requires
        forall|j: int| 0 <= j < before.len() ==> before[j] != byte,
    ensures
        index_of(before + seq![byte] + after, byte) == before.len(),
        index_of(before, byte) == before.len(),
{
    lemma_index_of_unique(before + seq![byte] + after, byte, before.len() as int);
    lemma_index_of_unique(before, byte, before.len() as int);
}

/// A pattern stands where its bytes stand one by one.
pub proof fn law_pattern_stands_byte_by_byte(s: Seq<u8>, pattern: Seq<u8>, i: int)
    ensures
        occurs_at(s, pattern, i) <==> {
            &&& 0 <= i
            &&& i + pattern.len() <= s.len()
            &&& forall|k: int| 0 <= k < pattern.len() ==> #[trigger] pattern[k] == s[i + k]
        },
{
    if 0 <= i && i + pattern.len() <= s.len() {
        let part = s.subrange(i, i + pattern.len());
        if part == pattern {
            assert forall|k: int| 0 <= k < pattern.len() implies #[trigger] pattern[k] == s[i
                + k] by {
                assert(part[k] == s[i + k]);
            }
        }
        if forall|k: int| 0 <= k < pattern.len() ==> #[trigger] pattern[k] == s[i + k] {
            assert(part =~= pattern);
        }
    }
}

/// A pattern is found at a position if and only if it stands there and nowhere
/// before, and not found if and only if it stands nowhere.
pub proof fn law_first_occurrence_is_found(s: Seq<u8>, pattern: Seq<u8>, i: nat)
    ensures
        find(s, pattern) == Some(i) <==> {
            &&& occurs_at(s, pattern, i as int)
            &&& forall|j: int| 0 <= j < i ==> !occurs_at(s, pattern, j)
        },
        find(s, pattern) is None <==> forall|j: int| !occurs_at(s, pattern, j),
{
    lemma_find(s, pattern);
    if occurs_at(s, pattern, i as int) && forall|j: int| 0 <= j < i ==> !occurs_at(s, pattern, j) {
        lemma_find_unique(s, pattern, i as int);
    }
}

/// A number is written by one or more bytes from `0` to `9`, and by nothing else.
pub proof fn law_numbers_are_digits(s: Seq<u8>)
    ensures
        number(s) is Some <==> s.len() > 0 && forall|i: int|
            0 <= i < s.len() ==> 48 <= #[trigger] s[i] <= 57,
        all_digits(s) <==> forall|i: int| 0 <= i < s.len() ==> 48 <= #[trigger] s[i] <= 57,
{
    if forall|i: int| 0 <= i < s.len() ==> 48 <= #[trigger] s[i] <= 57 {
        assert(all_digits(s));
    }
    if all_digits(s) {
        assert forall|i: int| 0 <= i < s.len() implies 48 <= #[trigger] s[i] <= 57 by {
            assert(crate::bytes::is_digit(s[i]));
        }
    }
}

/// One digit writes itself, and one more digit makes ten times the number
/// before it plus itself.
pub proof fn law_digits_are_positional(s: Seq<u8>, digit: u8)
    requires
        48 <= digit <= 57,
    ensures
        number(seq![digit]) == Some((digit - 48) as nat),
        number(s) matches Some(n) ==> number(s.push(digit)) == Some(
            (n * 10 + (digit - 48)) as nat,
        ),
{
    let one = seq![digit];
    law_numbers_are_digits(one);
    assert(one.drop_last() =~= Seq::<u8>::empty());
    assert(decimal(one.drop_last()) == 0);
    if number(s) is Some {
        let more = s.push(digit);
        law_numbers_are_digits(s);
        assert forall|i: int| 0 <= i < more.len() implies 48 <= #[trigger] more[i] <= 57 by {
            if i < s.len() {
                assert(more[i] == s[i]);
            }
        }
        law_numbers_are_digits(more);
        assert(more.drop_last() =~= s);
    }
}

} // verus!
