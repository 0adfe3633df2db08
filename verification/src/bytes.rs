//! Byte-level helpers shared by the parser: ASCII classification,
//! lower-casing, two-byte pattern search and decimal parsing.

use vstd::prelude::*;

verus! {

/// `b` is an ASCII decimal digit.
pub open spec fn is_digit(b: u8) -> bool {
    48 <= b && b <= 57
}

/// Every byte of `s` is an ASCII decimal digit.
pub open spec fn all_digits(s: Seq<u8>) -> bool {
    forall|i: int| 0 <= i < s.len() ==> is_digit(s[i])
}

/// Numeric value of a digit string, most significant digit first.
pub open spec fn dec_val(s: Seq<u8>) -> int
    decreases s.len(),
{
    if s.len() == 0 {
        0
    } else {
        dec_val(s.drop_last()) * 10 + (s.last() - 48)
    }
}

/// Base-10 parse of a byte string: defined exactly on non-empty all-digit
/// strings whose value fits in `usize`.
pub open spec fn parse_dec(s: Seq<u8>) -> Option<int> {
    if s.len() > 0 && all_digits(s) && dec_val(s) <= usize::MAX as int {
        Some(dec_val(s))
    } else {
        None
    }
}

/// ASCII lower-casing of one byte.
pub open spec fn lower_byte(b: u8) -> u8 {
    if 65 <= b && b <= 90 {
        (b + 32) as u8
    } else {
        b
    }
}

/// ASCII lower-casing of a byte string.
pub open spec fn lower(s: Seq<u8>) -> Seq<u8> {
    s.map_values(|b: u8| lower_byte(b))
}

/// The two-byte pattern `a b` stands at offset `i` of `s`.
pub open spec fn pair_at(s: Seq<u8>, a: u8, b: u8, i: int) -> bool {
    0 <= i && i + 2 <= s.len() && s[i] == a && s[i + 1] == b
}

/// Offset of the first occurrence of the two-byte pattern `a b` in `s`.
pub open spec fn find_pair(s: Seq<u8>, a: u8, b: u8) -> Option<int>
    decreases s.len(),
{
    if s.len() < 2 {
        None
    } else if s[0] == a && s[1] == b {
        Some(0)
    } else {
        match find_pair(s.skip(1), a, b) {
            Some(i) => Some(i + 1),
            None => None,
        }
    }
}

pub proof fn lemma_find_pair_some(s: Seq<u8>, a: u8, b: u8)
    requires
        find_pair(s, a, b).is_some(),
    ensures
        pair_at(s, a, b, find_pair(s, a, b).unwrap()),
        forall|j: int| 0 <= j < find_pair(s, a, b).unwrap() ==> !pair_at(s, a, b, j),
    decreases s.len(),
{
    if s.len() < 2 {
    } else if s[0] == a && s[1] == b {
    } else {
        let t = s.skip(1);
        lemma_find_pair_some(t, a, b);
        let i = find_pair(t, a, b).unwrap();
        assert(forall|k: int| 0 <= k < t.len() ==> t[k] == s[k + 1]);
        assert(s[i + 1] == t[i] && s[i + 2] == t[i + 1]);
        assert forall|j: int| 0 <= j < i + 1 implies !pair_at(s, a, b, j) by {
            if j == 0 {
            } else {
                assert(!pair_at(t, a, b, j - 1));
            }
        }
    }
}

pub proof fn lemma_find_pair_at(s: Seq<u8>, a: u8, b: u8, i: int)
    requires
        pair_at(s, a, b, i),
        forall|j: int| 0 <= j < i ==> !pair_at(s, a, b, j),
    ensures
        find_pair(s, a, b) == Some(i),
    decreases s.len(),
{
    if s[0] == a && s[1] == b {
        assert(pair_at(s, a, b, 0));
        assert(i == 0);
    } else {
        let t = s.skip(1);
        assert(forall|k: int| 0 <= k < t.len() ==> t[k] == s[k + 1]);
        assert(i >= 1);
        assert(pair_at(t, a, b, i - 1));
        assert forall|j: int| 0 <= j < i - 1 implies !pair_at(t, a, b, j) by {
            assert(!pair_at(s, a, b, j + 1));
        }
        lemma_find_pair_at(t, a, b, i - 1);
    }
}

pub proof fn lemma_find_pair_none(s: Seq<u8>, a: u8, b: u8)
    requires
        forall|j: int| !pair_at(s, a, b, j),
    ensures
        find_pair(s, a, b) == None::<int>,
    decreases s.len(),
{
    if s.len() < 2 {
    } else {
        assert(!pair_at(s, a, b, 0));
        let t = s.skip(1);
        assert(forall|k: int| 0 <= k < t.len() ==> t[k] == s[k + 1]);
        assert forall|j: int| !pair_at(t, a, b, j) by {
            if 0 <= j && j + 2 <= t.len() {
                assert(!pair_at(s, a, b, j + 1));
            }
        }
        lemma_find_pair_none(t, a, b);
    }
}

/// A pattern found in a prefix is found at the same place in any extension.
pub proof fn lemma_find_pair_prefix(s1: Seq<u8>, s2: Seq<u8>, a: u8, b: u8)
    requires
        s1.len() <= s2.len(),
        s1 == s2.take(s1.len() as int),
        find_pair(s1, a, b).is_some(),
    ensures
        find_pair(s2, a, b) == find_pair(s1, a, b),
{
    lemma_find_pair_some(s1, a, b);
    let i = find_pair(s1, a, b).unwrap();
    assert(forall|k: int| 0 <= k < s1.len() ==> s1[k] == s2[k]);
    assert(pair_at(s2, a, b, i));
    assert forall|j: int| 0 <= j < i implies !pair_at(s2, a, b, j) by {
        assert(!pair_at(s1, a, b, j));
        assert(s2[j] == s1[j] && s2[j + 1] == s1[j + 1]);
    }
    lemma_find_pair_at(s2, a, b, i);
}

/// Search for the first two-byte pattern `a b` inside `v[start..end]`,
/// returning its offset relative to `start`.
pub fn find_pair_in(v: &Vec<u8>, start: usize, end: usize, a: u8, b: u8) -> (r: Option<usize>)
    requires
        start <= end <= v.len(),
    ensures
        match r {
            Some(i) => find_pair(v@.subrange(start as int, end as int), a, b) == Some(i as int),
            None => find_pair(v@.subrange(start as int, end as int), a, b) == None::<int>,
        },
{
    let ghost s = v@.subrange(start as int, end as int);
    let n: usize = end - start;
    if n < 2 {
        proof {
            lemma_find_pair_none(s, a, b);
        }
        return None;
    }
    let mut i: usize = 0;
    while i < n - 1
        invariant
            start <= end <= v.len(),
            n == end - start,
            n >= 2,
            s == v@.subrange(start as int, end as int),
            i <= n - 1,
            forall|j: int| 0 <= j < i ==> !pair_at(s, a, b, j),
        decreases n - i,
    {
        if v[start + i] == a && v[start + i + 1] == b {
            proof {
                assert(s[i as int] == v@[start + i] && s[i + 1] == v@[start + i + 1]);
                lemma_find_pair_at(s, a, b, i as int);
            }
            return Some(i);
        }
        proof {
            assert(s[i as int] == v@[start + i] && s[i + 1] == v@[start + i + 1]);
            assert(!pair_at(s, a, b, i as int));
        }
        i = i + 1;
    }
    proof {
        assert forall|j: int| !pair_at(s, a, b, j) by {
            if 0 <= j && j + 2 <= s.len() {
                assert(j < i);
            }
        }
        lemma_find_pair_none(s, a, b);
    }
    None
}

/// Copy `v[a..b]` into a fresh vector.
pub fn copy_range(v: &[u8], a: usize, b: usize) -> (r: Vec<u8>)
    requires
        a <= b <= v.len(),
    ensures
        r@ == v@.subrange(a as int, b as int),
{
    let mut r: Vec<u8> = Vec::new();
    let mut i: usize = a;
    while i < b
        invariant
            a <= i <= b <= v.len(),
            r@ == v@.subrange(a as int, i as int),
        decreases b - i,
    {
        r.push(v[i]);
        proof {
            assert(r@ =~= v@.subrange(a as int, i + 1));
        }
        i = i + 1;
    }
    r
}

/// Byte-wise equality of two slices.
pub fn bytes_eq(x: &[u8], y: &[u8]) -> (r: bool)
    ensures
        r <==> x@ == y@,
{
    if x.len() != y.len() {
        return false;
    }
    let mut i: usize = 0;
    while i < x.len()
        invariant
            x@.len() == y@.len(),
            i <= x.len(),
            forall|j: int| 0 <= j < i ==> x@[j] == y@[j],
        decreases x.len() - i,
    {
        if x[i] != y[i] {
            return false;
        }
        i = i + 1;
    }
    proof {
        assert(x@ =~= y@);
    }
    true
}

/// ASCII lower-casing of a byte slice.
pub fn to_lower(v: &[u8]) -> (r: Vec<u8>)
    ensures
        r@ == lower(v@),
{
    let mut r: Vec<u8> = Vec::new();
    let mut i: usize = 0;
    while i < v.len()
        invariant
            i <= v.len(),
            r@.len() == i,
            forall|j: int| 0 <= j < i ==> r@[j] == lower_byte(v@[j]),
        decreases v.len() - i,
    {
        let b = v[i];
        if 65 <= b && b <= 90 {
            r.push(b + 32);
        } else {
            r.push(b);
        }
        i = i + 1;
    }
    proof {
        assert(r@ =~= lower(v@));
    }
    r
}

pub proof fn lemma_dec_val_nonneg(s: Seq<u8>)
    requires
        all_digits(s),
    ensures
        dec_val(s) >= 0,
    decreases s.len(),
{
    if s.len() > 0 {
        assert(all_digits(s.drop_last())) by {
            assert(forall|i: int| 0 <= i < s.len() - 1 ==> s.drop_last()[i] == s[i]);
        }
        lemma_dec_val_nonneg(s.drop_last());
    }
}

/// Appending digits never shrinks the value.
proof fn lemma_dec_val_prefix(s: Seq<u8>, k: int)
    requires
        all_digits(s),
        0 <= k <= s.len(),
    ensures
        dec_val(s.take(k)) <= dec_val(s),
    decreases s.len() - k,
{
    if k < s.len() {
        let t = s.take(k + 1);
        assert(all_digits(t)) by {
            assert(forall|i: int| 0 <= i < t.len() ==> t[i] == s[i]);
        }
        assert(t.drop_last() =~= s.take(k));
        assert(dec_val(t) == dec_val(s.take(k)) * 10 + (t.last() - 48));
        assert(all_digits(s.take(k))) by {
            assert(forall|i: int| 0 <= i < k ==> s.take(k)[i] == s[i]);
        }
        lemma_dec_val_nonneg(s.take(k));
        assert(dec_val(s.take(k)) <= dec_val(t));
        lemma_dec_val_prefix(s, k + 1);
    } else {
        assert(s.take(k) =~= s);
    }
}

/// Base-10 parse of a byte slice into a `usize`, rejecting empty input,
/// non-digits and overflow.
pub fn parse_dec_bytes(v: &[u8]) -> (r: Option<usize>)
    ensures
        match r {
            Some(n) => parse_dec(v@) == Some(n as int),
            None => parse_dec(v@) == None::<int>,
        },
{
    if v.len() == 0 {
        return None;
    }
    let mut acc: usize = 0;
    let mut i: usize = 0;
    while i < v.len()
        invariant
            i <= v.len(),
            all_digits(v@.take(i as int)),
            acc as int == dec_val(v@.take(i as int)),
        decreases v.len() - i,
    {
        let b = v[i];
        if !(48 <= b && b <= 57) {
            assert(!is_digit(v@[i as int]));
            return None;
        }
        let d: usize = (b - 48) as usize;
        if acc > (usize::MAX - d) / 10 {
            proof {
                assert(v@.take(i + 1).drop_last() =~= v@.take(i as int));
                assert(v@.take(i + 1).last() == v@[i as int]);
                assert(dec_val(v@.take(i + 1)) == acc * 10 + d);
                assert(acc * 10 + d > usize::MAX as int) by (nonlinear_arith)
                    requires
                        acc > (usize::MAX - d) / 10,
                        d <= 9,
                ;
                if all_digits(v@) {
                    lemma_dec_val_prefix(v@, i + 1);
                }
            }
            return None;
        }
        proof {
            assert(acc * 10 + d <= usize::MAX as int) by (nonlinear_arith)
                requires
                    acc <= (usize::MAX - d) / 10,
                    d <= 9,
            ;
        }
        acc = acc * 10 + d;
        proof {
            assert(v@.take(i + 1).drop_last() =~= v@.take(i as int));
            assert(all_digits(v@.take(i + 1)));
        }
        i = i + 1;
    }
    proof {
        assert(v@.take(v@.len() as int) =~= v@);
    }
    Some(acc)
}

} // verus!
