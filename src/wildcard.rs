//! Matching of one path segment, possibly holding `*` wildcards, against an
//! element name.

use vstd::prelude::*;

verus! {

broadcast use vstd::std_specs::vec::group_vec_axioms;

/// Index of the first `*` in `p` at or after `from`, or `p.len()` if none.
pub open spec fn first_star(p: Seq<char>, from: int) -> int
    decreases p.len() - from,
{
    if from >= p.len() {
        p.len() as int
    } else if p[from] == '*' {
        from
    } else {
        first_star(p, from + 1)
    }
}

/// Index of the last `*` among the first `n` characters of `p`, or -1 if none.
pub open spec fn last_star(p: Seq<char>, n: int) -> int
    decreases n,
{
    if n <= 0 {
        -1
    } else if p[n - 1] == '*' {
        n - 1
    } else {
        last_star(p, n - 1)
    }
}

/// The first position `i` with `from <= i` and `i + lit.len() <= end` at which
/// `lit` occurs in `w`, or -1 if there is none.
pub open spec fn first_occ(w: Seq<char>, lit: Seq<char>, from: int, end: int) -> int
    decreases end - from + 1,
{
    if from < 0 || from + lit.len() > end {
        -1
    } else if w.subrange(from, from + lit.len()) == lit {
        from
    } else {
        first_occ(w, lit, from + 1, end)
    }
}

/// Whether the literals of `p[lo..hi]` (the pieces between its `*`s) can be
/// found in `w`, in order and without overlap, within `[pos, end)`, each
/// searched greedily from just after the previous one. Empty pieces are
/// trivially satisfied.
pub open spec fn lits_fit(p: Seq<char>, lo: int, hi: int, w: Seq<char>, pos: int, end: int) -> bool
    decreases hi - lo + 1,
{
    if lo >= hi {
        true
    } else {
        let s = first_star(p, lo);
        let k = if lo <= s < hi { s } else { hi };
        if k == lo {
            lits_fit(p, lo + 1, hi, w, pos, end)
        } else {
            let at = first_occ(w, p.subrange(lo, k), pos, end);
            if at < 0 {
                false
            } else {
                lits_fit(p, k + 1, hi, w, at + (k - lo), end)
            }
        }
    }
}

/// Whether the segment pattern `p` matches the name `t`. Without `*` this is
/// equality. Otherwise `t` must start with the part before the first `*` and
/// end with the part after the last `*` (the two may overlap), and the
/// literals in between must occur in order between them.
pub open spec fn wildcard_match(p: Seq<char>, t: Seq<char>) -> bool {
    let f = first_star(p, 0);
    if f >= p.len() {
        p == t
    } else {
        let l = last_star(p, p.len() as int);
        let suffix_len = p.len() - (l + 1);
        &&& f <= t.len()
        &&& t.subrange(0, f) == p.subrange(0, f)
        &&& suffix_len <= t.len()
        &&& t.subrange(t.len() - suffix_len, t.len() as int) == p.subrange(l + 1, p.len() as int)
        &&& lits_fit(p, f + 1, l, t, f, t.len() - suffix_len)
    }
}

proof fn lemma_first_star(p: Seq<char>, from: int)
    requires
        0 <= from <= p.len(),
    ensures
        from <= first_star(p, from) <= p.len(),
        first_star(p, from) < p.len() ==> p[first_star(p, from)] == '*',
    decreases p.len() - from,
{
    if from < p.len() && p[from] != '*' {
        lemma_first_star(p, from + 1);
    }
}

proof fn lemma_last_star(p: Seq<char>, n: int, f: int)
    requires
        0 <= f < n <= p.len(),
        p[f] == '*',
    ensures
        f <= last_star(p, n) < n,
        p[last_star(p, n)] == '*',
    decreases n,
{
    if p[n - 1] != '*' {
        lemma_last_star(p, n - 1, f);
    }
}

/// The characters of a string.
pub fn chars_of(s: &str) -> (r: Vec<char>)
    ensures
        r@ == s@,
{
    let n = s.unicode_len();
    let mut r: Vec<char> = Vec::new();
    let mut i: usize = 0;
    while i < n
        invariant
            n == s@.len(),
            i <= n,
            r@ == s@.take(i as int),
        decreases n - i,
    {
        r.push(s.get_char(i));
        i = i + 1;
        assert(r@ =~= s@.take(i as int));
    }
    assert(s@.take(i as int) =~= s@);
    r
}

/// Whether `w[at..at + (hi - lo)]` equals `p[lo..hi]`.
fn eq_at(w: &Vec<char>, at: usize, p: &Vec<char>, lo: usize, hi: usize) -> (r: bool)
    requires
        lo <= hi <= p@.len(),
        at + (hi - lo) <= w@.len(),
    ensures
        r == (w@.subrange(at as int, at + (hi - lo)) == p@.subrange(lo as int, hi as int)),
{
    let wl = w.len();
    let n = hi - lo;
    let mut j: usize = 0;
    while j < n
        invariant
            n == hi - lo,
            lo <= hi <= p@.len(),
            at + n <= w@.len() == wl,
            j <= n,
            w@.subrange(at as int, at + j) == p@.subrange(lo as int, lo + j),
        decreases n - j,
    {
        if w[at + j] != p[lo + j] {
            assert(w@.subrange(at as int, at + n)[j as int] != p@.subrange(lo as int, hi as int)[j as int]);
            return false;
        }
        j = j + 1;
        assert(w@.subrange(at as int, at + j) =~= p@.subrange(lo as int, lo + j));
    }
    true
}

/// The first occurrence of `p[lo..hi]` in `w` within `[from, end)`.
fn find_from(w: &Vec<char>, p: &Vec<char>, lo: usize, hi: usize, from: usize, end: usize) -> (r: Option<usize>)
    requires
        lo <= hi <= p@.len(),
        end <= w@.len(),
    ensures
        r is Some ==> r->0 == first_occ(w@, p@.subrange(lo as int, hi as int), from as int, end as int)
            && r->0 + (hi - lo) <= end,
        r is None ==> first_occ(w@, p@.subrange(lo as int, hi as int), from as int, end as int) < 0,
{
    let ghost lit = p@.subrange(lo as int, hi as int);
    let wl = w.len();
    let n = hi - lo;
    if n > end || from > end - n {
        assert(lit.len() == n);
        assert(first_occ(w@, lit, from as int, end as int) == -1);
        return None;
    }
    let mut i = from;
    loop
        invariant
            n == hi - lo,
            lit == p@.subrange(lo as int, hi as int),
            lo <= hi <= p@.len(),
            end <= w@.len() == wl,
            from <= i <= end - n,
            first_occ(w@, lit, from as int, end as int) == first_occ(w@, lit, i as int, end as int),
        decreases end - n - i,
    {
        if eq_at(w, i, p, lo, hi) {
            return Some(i);
        }
        if i == end - n {
            assert(first_occ(w@, lit, i as int + 1, end as int) == -1);
            return None;
        }
        i = i + 1;
    }
}

/// Whether the segment pattern `p` matches the name `t`.
pub fn wildcard_matches(p: &Vec<char>, t: &Vec<char>) -> (r: bool)
    ensures
        r == wildcard_match(p@, t@),
{
    let plen = p.len();
    let tlen = t.len();
    let mut f: usize = 0;
    while f < plen && p[f] != '*'
        invariant
            f <= plen == p@.len(),
            first_star(p@, 0) == first_star(p@, f as int),
        decreases plen - f,
    {
        f = f + 1;
    }
    if f >= plen {
        if plen != tlen {
            return false;
        }
        let r = eq_at(t, 0, p, 0, plen);
        proof {
            assert(t@.subrange(0, plen as int) =~= t@);
            assert(p@.subrange(0, plen as int) =~= p@);
        }
        return r;
    }
    let mut l: usize = plen;
    while l > 0 && p[l - 1] != '*'
        invariant
            l <= plen == p@.len(),
            last_star(p@, plen as int) == last_star(p@, l as int),
        decreases l,
    {
        l = l - 1;
    }
    proof {
        lemma_last_star(p@, plen as int, f as int);
    }
    let l = l - 1;
    let suffix_len = plen - (l + 1);
    if f > tlen || !eq_at(t, 0, p, 0, f) {
        return false;
    }
    if suffix_len > tlen || !eq_at(t, tlen - suffix_len, p, l + 1, plen) {
        return false;
    }
    let end = tlen - suffix_len;
    let mut lo: usize = f + 1;
    let mut pos: usize = f;
    while lo < l
        invariant
            f <= l < plen == p@.len(),
            p@[l as int] == '*',
            first_star(p@, 0) == f,
            last_star(p@, plen as int) == l,
            suffix_len == plen - (l + 1),
            end == tlen - suffix_len,
            f <= tlen,
            t@.subrange(0, f as int) == p@.subrange(0, f as int),
            t@.subrange(tlen - suffix_len, tlen as int) == p@.subrange(l + 1, plen as int),
            lo <= l + 1,
            tlen == t@.len(),
            end <= tlen,
            f + 1 <= lo,
            lits_fit(p@, f + 1, l as int, t@, f as int, end as int)
                == lits_fit(p@, lo as int, l as int, t@, pos as int, end as int),
        decreases l + 1 - lo,
    {
        let mut k: usize = lo;
        while k < l && p[k] != '*'
            invariant
                lo <= k <= l < plen == p@.len(),
                p@[l as int] == '*',
                first_star(p@, lo as int) == first_star(p@, k as int),
            decreases l - k,
        {
            k = k + 1;
        }
        proof {
            lemma_first_star(p@, k as int);
            lemma_first_star(p@, lo as int);
            let s = first_star(p@, lo as int);
            assert(k as int == (if lo <= s < l { s } else { l as int }));
        }
        if k == lo {
            lo = lo + 1;
        } else {
            match find_from(t, p, lo, k, pos, end) {
                None => {
                    assert(!lits_fit(p@, lo as int, l as int, t@, pos as int, end as int));
                    return false;
                },
                Some(at) => {
                    pos = at + (k - lo);
                    lo = k + 1;
                },
            }
        }
    }
    true
}

} // verus!
