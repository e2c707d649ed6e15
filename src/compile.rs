//! Compilation of pattern strings into pattern trees.

use crate::pattern::Pattern;
use crate::wildcard::chars_of;
use vstd::prelude::*;

verus! {

broadcast use vstd::std_specs::vec::group_vec_axioms;

/// The shape of a compiled pattern, with each segment as its characters.
pub struct Shape {
    pub children: Seq<(Seq<char>, Shape)>,
}

/// The shape of a pattern.
pub open spec fn shape(p: Pattern) -> Shape
    decreases p.children@, 1nat,
{
    Shape { children: shapes(p.children@) }
}

/// The shapes of the entries of a group.
pub open spec fn shapes(s: Seq<(&str, Pattern)>) -> Seq<(Seq<char>, Shape)>
    decreases s, 0nat,
{
    if s.len() == 0 {
        Seq::empty()
    } else {
        let last = s[s.len() - 1];
        shapes(s.drop_last()).push((last.0@, shape(last.1)))
    }
}

/// Number of `{` among the first `i` characters of `s`.
pub open spec fn opens(s: Seq<char>, i: int) -> nat
    decreases i,
{
    if i <= 0 {
        0
    } else {
        opens(s, i - 1) + if s[i - 1] == '{' { 1nat } else { 0nat }
    }
}

/// Number of `}` among the first `i` characters of `s`.
pub open spec fn closes(s: Seq<char>, i: int) -> nat
    decreases i,
{
    if i <= 0 {
        0
    } else {
        closes(s, i - 1) + if s[i - 1] == '}' { 1nat } else { 0nat }
    }
}

/// The braces of `s` balance: no prefix closes more braces than it opens,
/// and the whole string closes as many as it opens.
pub open spec fn balanced(s: Seq<char>) -> bool {
    &&& forall|i: int| 0 <= i <= s.len() ==> #[trigger] closes(s, i) <= opens(s, i)
    &&& closes(s, s.len() as int) == opens(s, s.len() as int)
}

/// `s` is one brace group: it starts with `{` and that brace is closed by
/// its last character.
pub open spec fn enclosed(s: Seq<char>) -> bool {
    &&& s.len() >= 2
    &&& s[0] == '{'
    &&& s[s.len() - 1] == '}'
    &&& forall|i: int| 1 <= i < s.len() ==> #[trigger] closes(s, i) < opens(s, i)
}

/// Index of the first `c` at or after `from` that stands outside any brace
/// group of `s`, or `s.len()` if there is none.
pub open spec fn first_top(s: Seq<char>, c: char, from: int) -> int
    decreases s.len() - from,
{
    if from >= s.len() {
        s.len() as int
    } else if s[from] == c && opens(s, from) == closes(s, from) {
        from
    } else {
        first_top(s, c, from + 1)
    }
}

/// The first top-level `c` lies between `from` and the end.
pub proof fn lemma_first_top(s: Seq<char>, c: char, from: int)
    requires
        0 <= from <= s.len(),
    ensures
        from <= first_top(s, c, from) <= s.len(),
    decreases s.len() - from,
{
    if from < s.len() && !(s[from] == c && opens(s, from) == closes(s, from)) {
        lemma_first_top(s, c, from + 1);
    }
}

/// The entries that a pattern string compiles to. The empty string is a leaf.
/// A string that is one brace group holds alternatives, split at the commas
/// outside nested groups; their entries follow one another. Any other string
/// is split at its first `/` outside brace groups into a segment and the
/// rest, which compiles to the segment's sub-pattern.
pub open spec fn compile_spec(s: Seq<char>) -> Seq<(Seq<char>, Shape)>
    decreases s.len(), 1nat,
{
    if s.len() == 0 {
        Seq::empty()
    } else if enclosed(s) {
        alternatives(s.subrange(1, s.len() - 1))
    } else {
        proof {
            lemma_first_top(s, '/', 0);
        }
        let k = first_top(s, '/', 0);
        let rest = if k < s.len() { s.subrange(k + 1, s.len() as int) } else { Seq::empty() };
        seq![(s.subrange(0, k), Shape { children: compile_spec(rest) })]
    }
}

/// The entries of the comma-separated alternatives of `w`, in order.
pub open spec fn alternatives(w: Seq<char>) -> Seq<(Seq<char>, Shape)>
    decreases w.len(), 2nat,
{
    proof {
        lemma_first_top(w, ',', 0);
    }
    let k = first_top(w, ',', 0);
    let head = compile_spec(w.subrange(0, k));
    if k < w.len() {
        head + alternatives(w.subrange(k + 1, w.len() as int))
    } else {
        head
    }
}

/// Why a pattern string failed to compile.
#[derive(Debug, Clone, Copy, PartialEq, Eq)]
pub enum PatternError {
    /// A `}` with no `{` open before it, or a `{` never closed.
    UnbalancedBraces,
}

proof fn lemma_shapes_concat(a: Seq<(&str, Pattern)>, b: Seq<(&str, Pattern)>)
    ensures
        shapes(a + b) == shapes(a) + shapes(b),
    decreases b.len(),
{
    if b.len() == 0 {
        assert(a + b =~= a);
        assert(shapes(a) + shapes(b) =~= shapes(a));
    } else {
        lemma_shapes_concat(a, b.drop_last());
        assert((a + b).drop_last() =~= a + b.drop_last());
        assert((a + b)[(a + b).len() - 1] == b[b.len() - 1]);
        assert(shapes(a) + shapes(b) =~= (shapes(a) + shapes(b.drop_last())).push(
            (b[b.len() - 1].0@, shape(b[b.len() - 1].1)),
        ));
    }
}

/// Whether the braces of `cs` balance.
fn is_balanced(cs: &Vec<char>) -> (r: bool)
    ensures
        r == balanced(cs@),
{
    let n = cs.len();
    let mut op: usize = 0;
    let mut cl: usize = 0;
    let mut i: usize = 0;
    while i < n
        invariant
            n == cs@.len(),
            i <= n,
            op == opens(cs@, i as int),
            cl == closes(cs@, i as int),
            op <= i && cl <= i,
            forall|j: int| 0 <= j <= i ==> #[trigger] closes(cs@, j) <= opens(cs@, j),
        decreases n - i,
    {
        if cs[i] == '{' {
            op = op + 1;
        } else if cs[i] == '}' {
            cl = cl + 1;
        }
        i = i + 1;
        if cl > op {
            return false;
        }
    }
    op == cl
}

/// Whether `cs[lo..hi]` is one brace group.
fn is_enclosed(cs: &Vec<char>, lo: usize, hi: usize) -> (r: bool)
    requires
        lo <= hi <= cs@.len(),
    ensures
        r == enclosed(cs@.subrange(lo as int, hi as int)),
{
    let ghost s = cs@.subrange(lo as int, hi as int);
    if hi - lo < 2 || cs[lo] != '{' || cs[hi - 1] != '}' {
        return false;
    }
    let n = hi - lo;
    let mut op: usize = 1;
    let mut cl: usize = 0;
    let mut i: usize = 1;
    assert(opens(s, 1) == 1 && closes(s, 1) == 0) by {
        assert(s[0] == cs@[lo as int]);
        assert(opens(s, 0) == 0 && closes(s, 0) == 0);
    }
    while i < n
        invariant
            s == cs@.subrange(lo as int, hi as int),
            n == hi - lo,
            lo <= hi <= cs@.len(),
            1 <= i <= n,
            op == opens(s, i as int),
            cl == closes(s, i as int),
            op <= i && cl <= i,
            forall|j: int| 1 <= j < i ==> #[trigger] closes(s, j) < opens(s, j),
        decreases n - i,
    {
        if cl >= op {
            return false;
        }
        assert(s[i as int] == cs@[lo + i]);
        if cs[lo + i] == '{' {
            op = op + 1;
        } else if cs[lo + i] == '}' {
            cl = cl + 1;
        }
        i = i + 1;
    }
    true
}

/// The absolute index of the first `c` outside brace groups in `cs[lo..hi]`,
/// or `hi`.
fn find_top(cs: &Vec<char>, lo: usize, hi: usize, c: char) -> (r: usize)
    requires
        lo <= hi <= cs@.len(),
    ensures
        lo <= r <= hi,
        r - lo == first_top(cs@.subrange(lo as int, hi as int), c, 0),
{
    let ghost s = cs@.subrange(lo as int, hi as int);
    let mut op: usize = 0;
    let mut cl: usize = 0;
    let mut i: usize = lo;
    while i < hi
        invariant
            s == cs@.subrange(lo as int, hi as int),
            lo <= i <= hi <= cs@.len(),
            op == opens(s, i - lo),
            cl == closes(s, i - lo),
            op <= i - lo && cl <= i - lo,
            first_top(s, c, 0) == first_top(s, c, i - lo),
        decreases hi - i,
    {
        assert(s[i - lo] == cs@[i as int]);
        if cs[i] == c && op == cl {
            return i;
        }
        if cs[i] == '{' {
            op = op + 1;
        } else if cs[i] == '}' {
            cl = cl + 1;
        }
        i = i + 1;
    }
    hi
}

/// Compiles the characters `lo..hi` of `s` (whose characters are `cs`).
fn compile_at<'a>(s: &'a str, cs: &Vec<char>, lo: usize, hi: usize) -> (r: Vec<(&'a str, Pattern<'a>)>)
    requires
        cs@ == s@,
        lo <= hi <= cs@.len(),
    ensures
        shapes(r@) == compile_spec(cs@.subrange(lo as int, hi as int)),
    decreases hi - lo, 1nat,
{
    let ghost sub = cs@.subrange(lo as int, hi as int);
    if lo == hi {
        let v: Vec<(&'a str, Pattern<'a>)> = Vec::new();
        assert(sub.len() == 0);
        assert(shapes(v@) =~= Seq::empty());
        return v;
    }
    if is_enclosed(cs, lo, hi) {
        let r = compile_alternatives(s, cs, lo + 1, hi - 1);
        assert(sub.subrange(1, sub.len() - 1) =~= cs@.subrange(lo + 1, hi - 1));
        return r;
    }
    let k = find_top(cs, lo, hi, '/');
    let stub = s.substring_char(lo, k);
    let rest_lo = if k < hi { k + 1 } else { hi };
    proof {
        let kk = k - lo;
        assert(stub@ =~= sub.subrange(0, kk));
        if k < hi {
            assert(sub.subrange(kk + 1, sub.len() as int) =~= cs@.subrange(rest_lo as int, hi as int));
        } else {
            assert(cs@.subrange(rest_lo as int, hi as int) =~= Seq::<char>::empty());
        }
    }
    let c = compile_at(s, cs, rest_lo, hi);
    let ghost cv = c@;
    let mut v: Vec<(&'a str, Pattern<'a>)> = Vec::new();
    v.push((stub, Pattern { children: c }));
    proof {
        assert(v@.drop_last() =~= Seq::empty());
        assert(v@[0].1.children@ == cv);
        assert(shape(v@[0].1) == Shape { children: shapes(cv) });
        assert(shapes(v@.drop_last()) =~= Seq::empty());
        assert(shapes(v@) =~= seq![(stub@, Shape { children: shapes(cv) })]);
    }
    v
}

/// Compiles the alternatives in the characters `lo..hi` of `s`.
fn compile_alternatives<'a>(s: &'a str, cs: &Vec<char>, lo: usize, hi: usize) -> (r: Vec<(&'a str, Pattern<'a>)>)
    requires
        cs@ == s@,
        lo <= hi <= cs@.len(),
    ensures
        shapes(r@) == alternatives(cs@.subrange(lo as int, hi as int)),
    decreases hi - lo, 2nat,
{
    let mut acc: Vec<(&'a str, Pattern<'a>)> = Vec::new();
    let mut start: usize = lo;
    assert(shapes(acc@) =~= Seq::empty());
    assert(Seq::<(Seq<char>, Shape)>::empty() + alternatives(cs@.subrange(lo as int, hi as int))
        =~= alternatives(cs@.subrange(lo as int, hi as int)));
    loop
        invariant
            cs@ == s@,
            lo <= start <= hi <= cs@.len(),
            alternatives(cs@.subrange(lo as int, hi as int)) == shapes(acc@) + alternatives(
                cs@.subrange(start as int, hi as int),
            ),
        decreases hi - start,
    {
        let ghost w = cs@.subrange(start as int, hi as int);
        let k = find_top(cs, start, hi, ',');
        assert(w.subrange(0, k - start) =~= cs@.subrange(start as int, k as int));
        let ghost before = acc@;
        let mut v = compile_at(s, cs, start, k);
        let ghost vs = v@;
        acc.append(&mut v);
        proof {
            lemma_shapes_concat(before, vs);
        }
        if k == hi {
            return acc;
        }
        proof {
            assert(w.subrange(k - start + 1, w.len() as int) =~= cs@.subrange(k + 1, hi as int));
            assert(shapes(before) + (shapes(vs) + alternatives(cs@.subrange(k + 1, hi as int)))
                =~= (shapes(before) + shapes(vs)) + alternatives(cs@.subrange(k + 1, hi as int)));
        }
        start = k + 1;
    }
}

impl<'a> Pattern<'a> {
    /// Compiles a pattern string. Succeeds exactly when its braces balance.
    pub fn new(pattern: &'a str) -> (r: Result<Pattern<'a>, PatternError>)
        ensures
            match r {
                Ok(p) => balanced(pattern@) && shape(p).children == compile_spec(pattern@),
                Err(e) => !balanced(pattern@) && e == PatternError::UnbalancedBraces,
            },
    {
        let cs = chars_of(pattern);
        if !is_balanced(&cs) {
            return Err(PatternError::UnbalancedBraces);
        }
        let c = compile_at(pattern, &cs, 0, cs.len());
        assert(cs@.subrange(0, cs@.len() as int) =~= pattern@);
        Ok(Pattern { children: c })
    }
}

} // verus!
