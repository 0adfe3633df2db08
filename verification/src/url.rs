//! Splitting a URL into protocol, host and path.

use vstd::prelude::*;

use crate::bytes::copy_range;

verus! {

/// The byte `b` stands at offset `i` of `s`.
pub open spec fn byte_at(s: Seq<u8>, b: u8, i: int) -> bool {
    0 <= i < s.len() && s[i] == b
}

/// Offset of the first occurrence of the byte `b` in `s`.
pub open spec fn find_byte(s: Seq<u8>, b: u8) -> Option<int>
    decreases s.len(),
{
    if s.len() == 0 {
        None
    } else if s[0] == b {
        Some(0)
    } else {
        match find_byte(s.skip(1), b) {
            Some(i) => Some(i + 1),
            None => None,
        }
    }
}

proof fn lemma_find_byte_some(s: Seq<u8>, b: u8)
    requires
        find_byte(s, b).is_some(),
    ensures
        byte_at(s, b, find_byte(s, b).unwrap()),
        forall|j: int| 0 <= j < find_byte(s, b).unwrap() ==> s[j] != b,
    decreases s.len(),
{
    if s.len() == 0 {
    } else if s[0] == b {
    } else {
        let t = s.skip(1);
        lemma_find_byte_some(t, b);
        let i = find_byte(t, b).unwrap();
        assert(forall|k: int| 0 <= k < t.len() ==> t[k] == s[k + 1]);
        assert forall|j: int| 0 <= j < i + 1 implies s[j] != b by {
            if j > 0 {
                assert(t[j - 1] != b);
            }
        }
    }
}

proof fn lemma_find_byte_at(s: Seq<u8>, b: u8, i: int)
    requires
        byte_at(s, b, i),
        forall|j: int| 0 <= j < i ==> s[j] != b,
    ensures
        find_byte(s, b) == Some(i),
    decreases s.len(),
{
    if s[0] == b {
        assert(i == 0);
    } else {
        let t = s.skip(1);
        assert(forall|k: int| 0 <= k < t.len() ==> t[k] == s[k + 1]);
        lemma_find_byte_at(t, b, i - 1);
    }
}

proof fn lemma_find_byte_none(s: Seq<u8>, b: u8)
    requires
        forall|j: int| 0 <= j < s.len() ==> s[j] != b,
    ensures
        find_byte(s, b) == None::<int>,
    decreases s.len(),
{
    if s.len() > 0 {
        let t = s.skip(1);
        assert(forall|k: int| 0 <= k < t.len() ==> t[k] == s[k + 1]);
        lemma_find_byte_none(t, b);
    }
}

/// The three-byte scheme separator `"://"` stands at offset `i` of `s`.
pub open spec fn scheme_sep_at(s: Seq<u8>, i: int) -> bool {
    0 <= i && i + 3 <= s.len() && s[i] == 58 && s[i + 1] == 47 && s[i + 2] == 47
}

/// Offset of the first occurrence of `"://"` in `s`.
pub open spec fn find_scheme_sep(s: Seq<u8>) -> Option<int>
    decreases s.len(),
{
    if s.len() < 3 {
        None
    } else if s[0] == 58 && s[1] == 47 && s[2] == 47 {
        Some(0)
    } else {
        match find_scheme_sep(s.skip(1)) {
            Some(i) => Some(i + 1),
            None => None,
        }
    }
}

proof fn lemma_find_scheme_sep_some(s: Seq<u8>)
    requires
        find_scheme_sep(s).is_some(),
    ensures
        scheme_sep_at(s, find_scheme_sep(s).unwrap()),
        forall|j: int| 0 <= j < find_scheme_sep(s).unwrap() ==> !scheme_sep_at(s, j),
    decreases s.len(),
{
    if s.len() < 3 {
    } else if s[0] == 58 && s[1] == 47 && s[2] == 47 {
    } else {
        let t = s.skip(1);
        lemma_find_scheme_sep_some(t);
        let i = find_scheme_sep(t).unwrap();
        assert(forall|k: int| 0 <= k < t.len() ==> t[k] == s[k + 1]);
        assert forall|j: int| 0 <= j < i + 1 implies !scheme_sep_at(s, j) by {
            if j == 0 {
            } else {
                assert(!scheme_sep_at(t, j - 1));
            }
        }
    }
}

proof fn lemma_find_scheme_sep_at(s: Seq<u8>, i: int)
    requires
        scheme_sep_at(s, i),
        forall|j: int| 0 <= j < i ==> !scheme_sep_at(s, j),
    ensures
        find_scheme_sep(s) == Some(i),
    decreases s.len(),
{
    if s[0] == 58 && s[1] == 47 && s[2] == 47 {
        assert(scheme_sep_at(s, 0));
        assert(i == 0);
    } else {
        let t = s.skip(1);
        assert(forall|k: int| 0 <= k < t.len() ==> t[k] == s[k + 1]);
        assert(i >= 1);
        assert(scheme_sep_at(t, i - 1));
        assert forall|j: int| 0 <= j < i - 1 implies !scheme_sep_at(t, j) by {
            assert(!scheme_sep_at(s, j + 1));
        }
        lemma_find_scheme_sep_at(t, i - 1);
    }
}

proof fn lemma_find_scheme_sep_none(s: Seq<u8>)
    requires
        forall|j: int| !scheme_sep_at(s, j),
    ensures
        find_scheme_sep(s) == None::<int>,
    decreases s.len(),
{
    if s.len() < 3 {
    } else {
        assert(!scheme_sep_at(s, 0));
        let t = s.skip(1);
        assert(forall|k: int| 0 <= k < t.len() ==> t[k] == s[k + 1]);
        assert forall|j: int| !scheme_sep_at(t, j) by {
            if 0 <= j && j + 3 <= t.len() {
                assert(!scheme_sep_at(s, j + 1));
            }
        }
        lemma_find_scheme_sep_none(t);
    }
}

/// What `split_url` yields: the text before the first `"://"`, the text
/// after it up to (and excluding) the first `'/'`, and the text after that
/// `'/'` (excluding it); with no `'/'`, the whole remainder is the host and
/// the path defaults to `"/"`.
pub open spec fn spec_split_url(u: Seq<u8>) -> Option<(Seq<u8>, Seq<u8>, Seq<u8>)> {
    match find_scheme_sep(u) {
        None => None,
        Some(i) => {
            let rest = u.skip(i + 3);
            match find_byte(rest, 47) {
                Some(j) => Some((u.take(i), rest.take(j), rest.skip(j + 1))),
                None => Some((u.take(i), rest, seq![47u8])),
            }
        },
    }
}

/// A URL split into its components, each a byte string.
pub struct Url {
    pub protocol: Vec<u8>,
    pub host: Vec<u8>,
    pub path: Vec<u8>,
}

/// Search for the first `b` in `v[start..]`, returning the offset relative
/// to `start`.
fn find_byte_in(v: &[u8], start: usize, b: u8) -> (r: Option<usize>)
    requires
        start <= v.len(),
    ensures
        match r {
            Some(i) => find_byte(v@.skip(start as int), b) == Some(i as int),
            None => find_byte(v@.skip(start as int), b) == None::<int>,
        },
{
    let ghost s = v@.skip(start as int);
    let mut i: usize = 0;
    while start + i < v.len()
        invariant
            start <= v.len(),
            i <= v.len() - start,
            s == v@.skip(start as int),
            forall|j: int| 0 <= j < i ==> s[j] != b,
        decreases v.len() - start - i,
    {
        if v[start + i] == b {
            proof {
                assert(s[i as int] == v@[start + i]);
                lemma_find_byte_at(s, b, i as int);
            }
            return Some(i);
        }
        proof {
            assert(s[i as int] == v@[start + i]);
        }
        i = i + 1;
    }
    proof {
        lemma_find_byte_none(s, b);
    }
    None
}

/// Search for the first `"://"` in `v`.
fn find_scheme_sep_in(v: &[u8]) -> (r: Option<usize>)
    ensures
        match r {
            Some(i) => find_scheme_sep(v@) == Some(i as int),
            None => find_scheme_sep(v@) == None::<int>,
        },
{
    let n = v.len();
    if n < 3 {
        proof {
            lemma_find_scheme_sep_none(v@);
        }
        return None;
    }
    let mut i: usize = 0;
    while i < n - 2
        invariant
            n == v.len(),
            n >= 3,
            i <= n - 2,
            forall|j: int| 0 <= j < i ==> !scheme_sep_at(v@, j),
        decreases n - i,
    {
        if v[i] == 58 && v[i + 1] == 47 && v[i + 2] == 47 {
            proof {
                lemma_find_scheme_sep_at(v@, i as int);
            }
            return Some(i);
        }
        i = i + 1;
    }
    proof {
        assert forall|j: int| !scheme_sep_at(v@, j) by {
            if 0 <= j && j + 3 <= v@.len() {
                assert(j < i);
            }
        }
        lemma_find_scheme_sep_none(v@);
    }
    None
}

impl Url {
    /// Split `url` at the first `"://"` and the first `'/'` after it.
    /// Returns `None` when no `"://"` is present.
    pub fn split_url(url: &[u8]) -> (r: Option<Url>)
        ensures
            match r {
                Some(u) => spec_split_url(url@) == Some((u.protocol@, u.host@, u.path@)),
                None => spec_split_url(url@) is None,
            },
    {
        let n = url.len();
        match find_scheme_sep_in(url) {
            None => None,
            Some(i) => {
                proof {
                    lemma_find_scheme_sep_some(url@);
                }
                let ghost rest = url@.skip(i + 3);
                let protocol = copy_range(url, 0, i);
                proof {
                    assert(protocol@ =~= url@.take(i as int));
                    assert(rest =~= url@.subrange(i + 3, n as int));
                }
                match find_byte_in(url, i + 3, 47) {
                    Some(j) => {
                        proof {
                            lemma_find_byte_some(rest, 47);
                        }
                        let host = copy_range(url, i + 3, i + 3 + j);
                        let path = copy_range(url, i + 3 + j + 1, n);
                        proof {
                            assert(host@ =~= rest.take(j as int));
                            assert(path@ =~= rest.skip(j + 1));
                        }
                        Some(Url { protocol, host, path })
                    },
                    None => {
                        let host = copy_range(url, i + 3, n);
                        let path: Vec<u8> = vec![47u8];
                        proof {
                            assert(host@ =~= rest);
                            assert(path@ =~= seq![47u8]);
                        }
                        Some(Url { protocol, host, path })
                    },
                }
            },
        }
    }
}

} // verus!
