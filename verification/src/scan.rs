//! Byte-level substring search, the basis of every page-grammar function.

use vstd::prelude::*;

verus! {

/// The needle `n` occurs in `h` starting at index `i`.
pub open spec fn match_at(h: Seq<u8>, n: Seq<u8>, i: int) -> bool {
    &&& 0 <= i
    &&& i + n.len() <= h.len()
    &&& h.subrange(i, i + n.len() as int) == n
}

/// Index of the first occurrence of `n` in `h` at or after `from`, if any.
pub open spec fn find_spec(h: Seq<u8>, n: Seq<u8>, from: int) -> Option<int>
    decreases h.len() - from,
{
    if from < 0 || from > h.len() {
        None
    } else if match_at(h, n, from) {
        Some(from)
    } else if from == h.len() {
        None
    } else {
        find_spec(h, n, from + 1)
    }
}

/// `find_spec` returns the first match position: a found index is a match and
/// no earlier position at or after `from` matches; `None` means no position
/// at or after `from` matches.
pub proof fn lemma_find_spec_props(h: Seq<u8>, n: Seq<u8>, from: int)
    requires
        0 <= from <= h.len(),
    ensures
        match find_spec(h, n, from) {
            Some(i) => from <= i && match_at(h, n, i) && (forall|j: int|
                from <= j < i ==> !match_at(h, n, j)),
            None => forall|j: int| from <= j ==> !match_at(h, n, j),
        },
    decreases h.len() - from,
{
    if match_at(h, n, from) {
    } else if from == h.len() {
        assert forall|j: int| from <= j implies !match_at(h, n, j) by {
            if j + n.len() <= h.len() && j >= from {
                assert(n.len() == 0);
                assert(h.subrange(j, j) =~= n);
            }
        }
    } else {
        lemma_find_spec_props(h, n, from + 1);
    }
}

/// If fewer than `n.len()` bytes remain at `from`, there is no match.
pub proof fn lemma_find_spec_none_short(h: Seq<u8>, n: Seq<u8>, from: int)
    requires
        0 <= from <= h.len(),
        h.len() - from < n.len(),
    ensures
        find_spec(h, n, from) is None,
    decreases h.len() - from,
{
    if from < h.len() {
        lemma_find_spec_none_short(h, n, from + 1);
    }
}

/// Whether `n` occurs in `h` at exactly position `i`.
fn eq_at(h: &[u8], n: &[u8], i: usize) -> (r: bool)
    requires
        i + n@.len() <= h@.len(),
    ensures
        r == match_at(h@, n@, i as int),
{
    let h_len = h.len();
    let n_len = n.len();
    let mut k: usize = 0;
    while k < n_len
        invariant
            i + n@.len() <= h@.len(),
            k <= n@.len(),
            n_len == n@.len(),
            h_len == h@.len(),
            forall|m: int| 0 <= m < k ==> h@[i + m] == n@[m],
        decreases n@.len() - k,
    {
        if h[i + k] != n[k] {
            proof {
                if match_at(h@, n@, i as int) {
                    assert(h@.subrange(i as int, i + n@.len() as int)[k as int] == h@[i + k]);
                }
            }
            return false;
        }
        k += 1;
    }
    proof {
        assert(h@.subrange(i as int, i + n@.len() as int) =~= n@);
    }
    true
}

/// A position known to hold the first occurrence pins down `find_spec`.
pub proof fn lemma_find_spec_first(h: Seq<u8>, n: Seq<u8>, from: int, i: int)
    requires
        0 <= from <= i <= h.len(),
        match_at(h, n, i),
        forall|j: int| from <= j < i ==> !match_at(h, n, j),
    ensures
        find_spec(h, n, from) == Some(i),
    decreases i - from,
{
    if from < i {
        lemma_find_spec_first(h, n, from + 1, i);
    }
}

/// Index of the first occurrence of the byte `b` in `h` at or after `from`.
pub open spec fn find_byte_spec(h: Seq<u8>, b: u8, from: int) -> Option<int>
    decreases h.len() - from,
{
    if from < 0 || from >= h.len() {
        None
    } else if h[from] == b {
        Some(from)
    } else {
        find_byte_spec(h, b, from + 1)
    }
}

/// `find_byte_spec` returns the first position of the byte, and `None` only
/// when the byte does not occur at or after `from`.
pub proof fn lemma_find_byte_props(h: Seq<u8>, b: u8, from: int)
    requires
        0 <= from <= h.len(),
    ensures
        match find_byte_spec(h, b, from) {
            Some(i) => from <= i < h.len() && h[i] == b && (forall|j: int|
                from <= j < i ==> h[j] != b),
            None => forall|j: int| from <= j < h.len() ==> h[j] != b,
        },
    decreases h.len() - from,
{
    if from < h.len() && h[from] != b {
        lemma_find_byte_props(h, b, from + 1);
    }
}

/// A position known to hold the first occurrence pins down `find_byte_spec`.
pub proof fn lemma_find_byte_first(h: Seq<u8>, b: u8, from: int, i: int)
    requires
        0 <= from <= i < h.len(),
        h[i] == b,
        forall|j: int| from <= j < i ==> h[j] != b,
    ensures
        find_byte_spec(h, b, from) == Some(i),
    decreases i - from,
{
    if from < i {
        lemma_find_byte_first(h, b, from + 1, i);
    }
}

/// First occurrence of the byte `b` in `h` at or after `from`.
pub fn find_byte(h: &[u8], b: u8, from: usize) -> (r: Option<usize>)
    requires
        from <= h@.len(),
    ensures
        match r {
            Some(i) => find_byte_spec(h@, b, from as int) == Some(i as int) && from <= i
                < h@.len() && h@[i as int] == b,
            None => find_byte_spec(h@, b, from as int) is None,
        },
{
    let h_len = h.len();
    let mut i = from;
    while i < h_len
        invariant
            from <= i <= h@.len(),
            h_len == h@.len(),
            find_byte_spec(h@, b, from as int) == find_byte_spec(h@, b, i as int),
        decreases h@.len() - i,
    {
        if h[i] == b {
            return Some(i);
        }
        i += 1;
    }
    None
}

/// First occurrence of `n` in `h` at or after `from`, as `find_spec` defines it.
pub fn find_from(h: &[u8], n: &[u8], from: usize) -> (r: Option<usize>)
    requires
        from <= h@.len(),
    ensures
        match r {
            Some(i) => find_spec(h@, n@, from as int) == Some(i as int),
            None => find_spec(h@, n@, from as int) is None,
        },
{
    let h_len = h.len();
    let n_len = n.len();
    let mut i = from;
    loop
        invariant
            from <= i <= h@.len(),
            h_len == h@.len(),
            n_len == n@.len(),
            find_spec(h@, n@, from as int) == find_spec(h@, n@, i as int),
        decreases h@.len() - i,
    {
        if n_len > h_len - i {
            proof {
                lemma_find_spec_none_short(h@, n@, i as int);
            }
            return None;
        }
        if eq_at(h, n, i) {
            return Some(i);
        }
        proof {
            if n@.len() == 0 {
                assert(h@.subrange(i as int, i as int) =~= n@);
            }
        }
        i += 1;
    }
}

/// Whether `n` occurs in `h` at exactly position `i`, bounds included.
pub fn occurs_at(h: &[u8], n: &[u8], i: usize) -> (r: bool)
    requires
        i <= h@.len(),
    ensures
        r == match_at(h@, n@, i as int),
{
    if n.len() > h.len() - i {
        false
    } else {
        eq_at(h, n, i)
    }
}

/// An owned copy of a byte string.
pub fn bytes_to_vec(s: &[u8]) -> (r: Vec<u8>)
    ensures
        r@ == s@,
{
    let mut r: Vec<u8> = Vec::new();
    let s_len = s.len();
    let mut i: usize = 0;
    while i < s_len
        invariant
            i <= s@.len(),
            s_len == s@.len(),
            r@ =~= s@.take(i as int),
        decreases s@.len() - i,
    {
        r.push(s[i]);
        i += 1;
    }
    proof {
        assert(r@ =~= s@);
    }
    r
}

/// The concatenation of two byte strings.
pub fn concat_bytes(a: &[u8], b: &[u8]) -> (r: Vec<u8>)
    ensures
        r@ == a@ + b@,
{
    let mut r: Vec<u8> = Vec::new();
    let a_len = a.len();
    let mut i: usize = 0;
    while i < a_len
        invariant
            i <= a@.len(),
            a_len == a@.len(),
            r@ =~= a@.take(i as int),
        decreases a@.len() - i,
    {
        r.push(a[i]);
        i += 1;
    }
    let b_len = b.len();
    let mut k: usize = 0;
    while k < b_len
        invariant
            k <= b@.len(),
            b_len == b@.len(),
            r@ =~= a@ + b@.take(k as int),
        decreases b@.len() - k,
    {
        r.push(b[k]);
        k += 1;
    }
    proof {
        assert(r@ =~= a@ + b@);
    }
    r
}

} // verus!
