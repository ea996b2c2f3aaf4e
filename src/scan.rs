//! Searching a byte sequence for a fixed pattern.
use vstd::prelude::*;

verus! {

/// `pat` occurs in `s` starting at index `i`.
pub open spec fn occurs_at(s: Seq<u8>, pat: Seq<u8>, i: int) -> bool {
    0 <= i && i + pat.len() <= s.len() && s.subrange(i, i + pat.len()) =~= pat
}

/// The first index at or after `start` where `pat` occurs in `s`.
pub open spec fn find_from(s: Seq<u8>, pat: Seq<u8>, start: int) -> Option<int>
    decreases s.len() - start,
{
    if start < 0 || start + pat.len() > s.len() {
        None
    } else if occurs_at(s, pat, start) {
        Some(start)
    } else {
        find_from(s, pat, start + 1)
    }
}

/// What `find_from` returns, stated through occurrences.
pub proof fn lemma_find_from(s: Seq<u8>, pat: Seq<u8>, start: int)
    requires
        0 <= start,
    ensures
        match find_from(s, pat, start) {
            Some(i) => start <= i && occurs_at(s, pat, i) && forall|j: int|
                start <= j < i ==> !occurs_at(s, pat, j),
            None => forall|j: int| start <= j ==> !occurs_at(s, pat, j),
        },
    decreases s.len() - start,
{
    if start + pat.len() > s.len() {
    } else if occurs_at(s, pat, start) {
    } else {
        lemma_find_from(s, pat, start + 1);
        assert forall|j: int| start <= j && occurs_at(s, pat, j) implies j >= start + 1 by {}
    }
}

/// The occurrences determine `find_from`: if `i` is the first occurrence at or
/// after `start`, it is what `find_from` gives.
pub proof fn lemma_find_from_first(s: Seq<u8>, pat: Seq<u8>, start: int, i: int)
    requires
        0 <= start <= i,
        occurs_at(s, pat, i),
        forall|j: int| start <= j < i ==> !occurs_at(s, pat, j),
    ensures
        find_from(s, pat, start) == Some(i),
{
    lemma_find_from(s, pat, start);
    match find_from(s, pat, start) {
        Some(k) => {
            if k < i {
            } else if k > i {
            }
        },
        None => {},
    }
}

/// If there is no occurrence at or after `start`, `find_from` gives nothing.
pub proof fn lemma_find_from_none(s: Seq<u8>, pat: Seq<u8>, start: int)
    requires
        0 <= start,
        forall|j: int| start <= j ==> !occurs_at(s, pat, j),
    ensures
        find_from(s, pat, start) is None,
{
    lemma_find_from(s, pat, start);
}

/// Searching a prefix of `s` finds the same first occurrence if it lies
/// wholly within the prefix, and nothing otherwise.
pub proof fn lemma_find_from_prefix(s: Seq<u8>, pat: Seq<u8>, start: int, k: int)
    requires
        0 <= start,
        0 <= k <= s.len(),
    ensures
        find_from(s.subrange(0, k), pat, start) == (match find_from(s, pat, start) {
            Some(i) => if i + pat.len() <= k {
                Some(i)
            } else {
                None
            },
            None => None,
        }),
{
    let p = s.subrange(0, k);
    lemma_find_from(s, pat, start);
    assert forall|j: int| occurs_at(p, pat, j) implies occurs_at(s, pat, j) && j + pat.len()
        <= k by {
        assert forall|t: int| 0 <= t < pat.len() implies s[j + t] == pat[t] by {
            assert(p.subrange(j, j + pat.len())[t] == p[j + t]);
        }
        assert(s.subrange(j, j + pat.len()) =~= pat);
    }
    match find_from(s, pat, start) {
        Some(i) => {
            if i + pat.len() <= k {
                assert(p.subrange(i, i + pat.len()) =~= s.subrange(i, i + pat.len()));
                lemma_find_from_first(p, pat, start, i);
            } else {
                assert forall|j: int| start <= j implies !occurs_at(p, pat, j) by {
                    if occurs_at(p, pat, j) && j < i {
                    }
                }
                lemma_find_from_none(p, pat, start);
            }
        },
        None => {
            lemma_find_from_none(p, pat, start);
        },
    }
}

/// Finds the first occurrence of `pat` in `s` at or after `start`.
pub fn find_pattern(s: &[u8], pat: &[u8], start: usize) -> (r: Option<usize>)
    requires
        pat@.len() > 0,
    ensures
        match r {
            Some(i) => find_from(s@, pat@, start as int) == Some(i as int),
            None => find_from(s@, pat@, start as int) is None,
        },
{
    let n = s.len();
    let m = pat.len();
    if m > n || start > n - m {
        return None;
    }
    let mut i: usize = start;
    while i <= n - m
        invariant
            n == s@.len(),
            m == pat@.len(),
            m <= n,
            start <= i,
            i <= n - m + 1,
            find_from(s@, pat@, start as int) == find_from(s@, pat@, i as int),
        decreases n - m + 1 - i,
    {
        let mut k: usize = 0;
        let mut matched = true;
        while k < m
            invariant
                n == s@.len(),
                m == pat@.len(),
                i + m <= n,
                k <= m,
                matched <==> forall|t: int| 0 <= t < k ==> s@[i + t] == pat@[t],
            decreases m - k,
        {
            if s[i + k] != pat[k] {
                matched = false;
            }
            k = k + 1;
        }
        if matched {
            assert(s@.subrange(i as int, i + m) =~= pat@);
            return Some(i);
        }
        assert(!occurs_at(s@, pat@, i as int)) by {
            if occurs_at(s@, pat@, i as int) {
                assert forall|t: int| 0 <= t < m implies s@[i + t] == pat@[t] by {
                    assert(s@.subrange(i as int, i + m)[t] == s@[i + t]);
                }
            }
        }
        i = i + 1;
    }
    None
}

} // verus!
