//! Compiled path patterns: a tree of (wildcard segment, sub-pattern) pairs.

use crate::wildcard::{chars_of, wildcard_match, wildcard_matches};
use vstd::prelude::*;

verus! {

broadcast use vstd::std_specs::vec::group_vec_axioms;

/// A compiled pattern. A pattern without children is a leaf, which stands for
/// one output column; otherwise it is an ordered group of
/// `(segment, sub-pattern)` pairs.
pub struct Pattern<'a> {
    pub children: Vec<(&'a str, Pattern<'a>)>,
}

/// Number of output columns of a pattern: 1 for a leaf, otherwise the sum over
/// the group's sub-patterns.
pub open spec fn leafs(p: Pattern) -> nat
    decreases p.children@, 1nat,
{
    if p.children@.len() == 0 {
        1
    } else {
        sum_leafs(p.children@)
    }
}

/// Sum of the column counts of the sub-patterns of a group.
pub open spec fn sum_leafs(s: Seq<(&str, Pattern)>) -> nat
    decreases s, 0nat,
{
    if s.len() == 0 {
        0
    } else {
        sum_leafs(s.drop_last()) + leafs(s.last().1)
    }
}

impl<'a> Pattern<'a> {
    /// Whether the segment pattern `pattern` (which may hold `*` wildcards)
    /// matches the element name `target`.
    pub fn pattern_check(pattern: &str, target: &str) -> (r: bool)
        ensures
            r == wildcard_match(pattern@, target@),
    {
        let p = chars_of(pattern);
        let t = chars_of(target);
        wildcard_matches(&p, &t)
    }

    pub fn is_leaf(&self) -> (r: bool)
        ensures
            r == (self.children@.len() == 0),
    {
        self.children.len() == 0
    }

    /// The entries of the group, in order; empty for a leaf.
    pub fn iter(&self) -> (r: &[(&'a str, Pattern<'a>)])
        ensures
            r@ == self.children@,
    {
        self.children.as_slice()
    }

    /// Number of columns that this pattern yields.
    pub fn count_leafs(&self) -> (r: usize)
        requires
            leafs(*self) <= usize::MAX,
        ensures
            r == leafs(*self),
        decreases self.children@, 1nat,
    {
        if self.is_leaf() {
            return 1;
        }
        let mut total: usize = 0;
        let mut i: usize = 0;
        while i < self.children.len()
            invariant
                i <= self.children@.len(),
                total == sum_leafs(self.children@.take(i as int)),
                leafs(*self) <= usize::MAX,
                self.children@.len() > 0,
            decreases self.children@.len() - i,
        {
            proof {
                lemma_sum_leafs_prefix(self.children@, i as int + 1);
                assert(self.children@.take(i as int + 1).drop_last() =~= self.children@.take(i as int));
            }
            let sub = self.children[i].1.count_leafs();
            total = total + sub;
            i = i + 1;
        }
        assert(self.children@.take(i as int) =~= self.children@);
        total
    }
}

impl<'a> Pattern<'a> {
    /// Number of columns that this pattern yields, or `None` where that
    /// number does not fit in `usize`.
    pub fn checked_count_leafs(&self) -> (r: Option<usize>)
        ensures
            r matches Some(n) ==> n == leafs(*self),
            r is None ==> leafs(*self) > usize::MAX,
        decreases self.children@, 1nat,
    {
        if self.is_leaf() {
            return Some(1);
        }
        let mut total: usize = 0;
        let mut i: usize = 0;
        while i < self.children.len()
            invariant
                i <= self.children@.len(),
                total == sum_leafs(self.children@.take(i as int)),
                self.children@.len() > 0,
            decreases self.children@.len() - i,
        {
            proof {
                lemma_sum_leafs_prefix(self.children@, i as int + 1);
                lemma_leafs_child(self.children@, i as int);
                assert(self.children@.take(i as int + 1).drop_last() =~= self.children@.take(i as int));
            }
            match self.children[i].1.checked_count_leafs() {
                None => {
                    return None;
                },
                Some(sub) => match total.checked_add(sub) {
                    None => {
                        return None;
                    },
                    Some(t) => {
                        total = t;
                    },
                },
            }
            i = i + 1;
        }
        assert(self.children@.take(i as int) =~= self.children@);
        Some(total)
    }
}

/// A sub-pattern of a group has no more columns than the group.
pub proof fn lemma_leafs_child(s: Seq<(&str, Pattern)>, i: int)
    requires
        0 <= i < s.len(),
    ensures
        leafs(s[i].1) <= sum_leafs(s),
    decreases s.len(),
{
    if i < s.len() - 1 {
        lemma_leafs_child(s.drop_last(), i);
    }
}

/// The column count of a prefix of a group never exceeds that of the whole group.
pub proof fn lemma_sum_leafs_prefix(s: Seq<(&str, Pattern)>, k: int)
    requires
        0 <= k <= s.len(),
    ensures
        sum_leafs(s.take(k)) <= sum_leafs(s),
    decreases s.len(),
{
    if k < s.len() {
        assert(s.take(k) =~= s.drop_last().take(k));
        lemma_sum_leafs_prefix(s.drop_last(), k);
    } else {
        assert(s.take(k) =~= s);
    }
}

} // verus!
