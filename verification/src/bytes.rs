//! Searching, splitting and reading decimal numbers in byte sequences.

use vstd::prelude::*;

verus! {

/// Position of the first `byte` in `s`, or the length of `s` if there is none.
pub open spec fn index_of(s: Seq<u8>, byte: u8) -> nat
    decreases s.len(),
{
    if s.len() == 0 || s[0] == byte {
        0
    } else {
        1 + index_of(s.skip(1), byte)
    }
}

/// `index_of` stops at the first occurrence, or at the end.
pub proof fn lemma_index_of(s: Seq<u8>, byte: u8)
    ensures
        index_of(s, byte) <= s.len(),
        index_of(s, byte) < s.len() ==> s[index_of(s, byte) as int] == byte,
        forall|j: int| 0 <= j < index_of(s, byte) ==> s[j] != byte,
    decreases s.len(),
{
    if s.len() != 0 && s[0] != byte {
        lemma_index_of(s.skip(1), byte);
        assert forall|j: int| 0 <= j < index_of(s, byte) implies s[j] != byte by {
            if j > 0 {
                assert(s.skip(1)[j - 1] == s[j]);
            }
        }
    }
}

/// A position with no earlier occurrence, at which `byte` or the end stands, is `index_of`.
pub proof fn lemma_index_of_unique(s: Seq<u8>, byte: u8, i: int)
    requires
        0 <= i <= s.len(),
        i < s.len() ==> s[i] == byte,
        forall|j: int| 0 <= j < i ==> s[j] != byte,
    ensures
        index_of(s, byte) == i,
{
    lemma_index_of(s, byte);
    let k = index_of(s, byte) as int;
    if k < i {
        assert(s[k] != byte);
    }
}

/// The parts of `s` between occurrences of `separator`: always at least one.
pub open spec fn split(s: Seq<u8>, separator: u8) -> Seq<Seq<u8>>
    decreases s.len(),
{
    let i = index_of(s, separator) as int;
    if i < s.len() {
        seq![s.take(i)] + split(s.skip(i + 1), separator)
    } else {
        seq![s]
    }
}

/// First position of `byte` in `bytes`, or the length.
pub fn find_byte(bytes: &[u8], byte: u8) -> (i: usize)
    ensures
        i == index_of(bytes@, byte),
        i <= bytes@.len(),
{
    let mut i: usize = 0;
    while i < bytes.len() && bytes[i] != byte
        invariant
            i <= bytes@.len(),
            forall|j: int| 0 <= j < i ==> bytes@[j] != byte,
        decreases bytes@.len() - i,
    {
        i += 1;
    }
    proof {
        lemma_index_of_unique(bytes@, byte, i as int);
    }
    i
}

/// `pattern` stands in `s` at position `i`.
pub open spec fn occurs_at(s: Seq<u8>, pattern: Seq<u8>, i: int) -> bool {
    &&& 0 <= i
    &&& i + pattern.len() <= s.len()
    &&& s.subrange(i, i + pattern.len()) == pattern
}

/// First position at which `pattern` stands in `s`.
pub open spec fn find(s: Seq<u8>, pattern: Seq<u8>) -> Option<nat>
    decreases s.len(),
{
    if occurs_at(s, pattern, 0) {
        Some(0)
    } else if s.len() == 0 {
        None
    } else {
        match find(s.skip(1), pattern) {
            Some(i) => Some(1 + i),
            None => None,
        }
    }
}

/// `find` gives the first occurrence, and `None` exactly when there is none.
pub proof fn lemma_find(s: Seq<u8>, pattern: Seq<u8>)
    ensures
        match find(s, pattern) {
            Some(i) => {
                &&& occurs_at(s, pattern, i as int)
                &&& forall|j: int| 0 <= j < i ==> !occurs_at(s, pattern, j)
            },
            None => forall|j: int| !occurs_at(s, pattern, j),
        },
    decreases s.len(),
{
    if !occurs_at(s, pattern, 0) && s.len() > 0 {
        lemma_find(s.skip(1), pattern);
        assert forall|j: int| 1 <= j implies occurs_at(s, pattern, j) == occurs_at(
            s.skip(1),
            pattern,
            j - 1,
        ) by {
            if j + pattern.len() <= s.len() {
                assert(s.skip(1).subrange(j - 1, j - 1 + pattern.len()) =~= s.subrange(
                    j,
                    j + pattern.len(),
                ));
            }
        }
        assert forall|j: int| 0 <= j && (find(s, pattern) matches Some(i) ==> j < i) implies !occurs_at(
            s,
            pattern,
            j,
        ) by {
            if j > 0 {
                assert(!occurs_at(s.skip(1), pattern, j - 1));
            }
        }
    }
}

/// An occurrence with no earlier one is the one that `find` gives.
pub proof fn lemma_find_unique(s: Seq<u8>, pattern: Seq<u8>, i: int)
    requires
        occurs_at(s, pattern, i),
        forall|j: int| 0 <= j < i ==> !occurs_at(s, pattern, j),
    ensures
        find(s, pattern) == Some(i as nat),
{
    lemma_find(s, pattern);
    if let Some(k) = find(s, pattern) {
        assert(occurs_at(s, pattern, k as int));
    }
}

/// Where the pattern stands nowhere, `find` gives nothing.
pub proof fn lemma_find_nothing(s: Seq<u8>, pattern: Seq<u8>)
    requires
        forall|j: int| 0 <= j ==> !occurs_at(s, pattern, j),
    ensures
        find(s, pattern) is None,
{
    lemma_find(s, pattern);
}

/// Whether two byte slices are equal.
pub fn same_bytes(a: &[u8], b: &[u8]) -> (same: bool)
    ensures
        same == (a@ == b@),
{
    if a.len() != b.len() {
        return false;
    }
    let mut i: usize = 0;
    while i < a.len()
        invariant
            a@.len() == b@.len(),
            i <= a@.len(),
            forall|j: int| 0 <= j < i ==> a@[j] == b@[j],
        decreases a@.len() - i,
    {
        if a[i] != b[i] {
            return false;
        }
        i += 1;
    }
    assert(a@ =~= b@);
    true
}

/// First position at which `pattern` stands in `bytes`.
pub fn find_bytes(bytes: &[u8], pattern: &[u8]) -> (found: Option<usize>)
    ensures
        match found {
            Some(i) => find(bytes@, pattern@) == Some(i as nat) && i + pattern@.len() <= bytes@.len(),
            None => find(bytes@, pattern@) is None,
        },
{
    let mut i: usize = 0;
    while pattern.len() <= bytes.len() - i
        invariant
            i <= bytes@.len(),
            forall|j: int| 0 <= j < i ==> !occurs_at(bytes@, pattern@, j),
        decreases bytes@.len() - i,
    {
        if same_bytes(&bytes[i..i + pattern.len()], pattern) {
            proof {
                lemma_find_unique(bytes@, pattern@, i as int);
            }
            return Some(i);
        }
        assert(i < bytes@.len()) by {
            if i == bytes@.len() {
                assert(bytes@.subrange(i as int, i + pattern@.len()) =~= pattern@);
            }
        }
        i += 1;
    }
    proof {
        lemma_find_nothing(bytes@, pattern@);
    }
    None
}

pub open spec fn is_digit(byte: u8) -> bool {
    0x30 <= byte <= 0x39
}

pub open spec fn all_digits(s: Seq<u8>) -> bool {
    forall|i: int| 0 <= i < s.len() ==> is_digit(#[trigger] s[i])
}

/// What the decimal digits of `s` add up to, the most significant first.
pub open spec fn decimal(s: Seq<u8>) -> nat
    decreases s.len(),
{
    if s.len() == 0 {
        0
    } else {
        decimal(s.drop_last()) * 10 + (s.last() - 0x30) as nat
    }
}

/// The number that `s` writes in decimal: one digit or more, and nothing else.
pub open spec fn number(s: Seq<u8>) -> Option<nat> {
    if s.len() > 0 && all_digits(s) {
        Some(decimal(s))
    } else {
        None
    }
}

/// More digits never make a smaller number.
proof fn lemma_decimal_grows(s: Seq<u8>, n: int)
    requires
        0 <= n <= s.len(),
    ensures
        decimal(s.take(n)) <= decimal(s),
    decreases s.len(),
{
    if n < s.len() {
        lemma_decimal_grows(s.drop_last(), n);
        assert(s.drop_last().take(n) =~= s.take(n));
    } else {
        assert(s.take(n) =~= s);
    }
}

/// Whether every byte is an ASCII digit.
pub fn digits_only(bytes: &[u8]) -> (digits: bool)
    ensures
        digits == all_digits(bytes@),
{
    let mut i: usize = 0;
    while i < bytes.len()
        invariant
            i <= bytes@.len(),
            forall|j: int| 0 <= j < i ==> is_digit(#[trigger] bytes@[j]),
        decreases bytes@.len() - i,
    {
        if bytes[i] < 0x30 || bytes[i] > 0x39 {
            assert(!is_digit(bytes@[i as int]));
            return false;
        }
        i += 1;
    }
    true
}

/// Whether `bytes` write the number `expected` in decimal.
pub fn writes_number(bytes: &[u8], expected: u32) -> (same: bool)
    ensures
        same == (number(bytes@) == Some(expected as nat)),
{
    if bytes.len() == 0 || !digits_only(bytes) {
        return false;
    }
    let mut value: u64 = 0;
    let mut i: usize = 0;
    while i < bytes.len()
        invariant
            i <= bytes@.len(),
            all_digits(bytes@),
            value == decimal(bytes@.take(i as int)),
            value <= expected,
        decreases bytes@.len() - i,
    {
        proof {
            assert(is_digit(bytes@[i as int]));
            assert(bytes@.take(i + 1).drop_last() =~= bytes@.take(i as int));
            lemma_decimal_grows(bytes@, i + 1);
        }
        value = value * 10 + (bytes[i] - 0x30) as u64;
        if value > expected as u64 {
            return false;
        }
        i += 1;
    }
    assert(bytes@.take(i as int) =~= bytes@);
    value == expected as u64
}

} // verus!
