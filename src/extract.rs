//! Extraction of a table from an element tree by a compiled pattern.

use crate::pattern::{leafs, lemma_leafs_child, Pattern};
use crate::pattern::sum_leafs;
use crate::table::{
    cart, lemma_cross_index, lemma_insert_single_row, render, render_table, cartesian_product, cross, lemma_cart_width, lemma_cross_len, lemma_cross_unit,
    lemma_widths_sum_last, product, rows_of, tables_of, uniform, widths_sum,
};
use crate::wildcard::wildcard_match;
use vstd::prelude::*;

verus! {

broadcast use vstd::std_specs::vec::group_vec_axioms;

/// A node of a parsed document: its tag name, its text content (empty when it
/// has none) and its children in document order.
pub struct Element<'a> {
    pub name: &'a str,
    pub text: &'a str,
    pub children: Vec<Element<'a>>,
}

/// A row of `n` empty cells.
pub open spec fn blank_row<'a>(n: nat) -> Seq<&'a str> {
    Seq::new(n, |i: int| "")
}

/// The table that pattern `p` extracts from node `n`: the node's text for a
/// leaf; otherwise the product of the tables of the group's segments.
pub open spec fn extract_spec<'a>(p: Pattern, n: Element<'a>) -> Seq<Seq<&'a str>>
    decreases p.children@, 1nat, 0nat,
{
    if p.children@.len() == 0 {
        seq![seq![n.text]]
    } else {
        product(segment_tables(p.children@, n))
    }
}

/// The tables of the segments of a group, in order, against node `n`.
pub open spec fn segment_tables<'a>(s: Seq<(&str, Pattern)>, n: Element<'a>) -> Seq<Seq<Seq<&'a str>>>
    decreases s, 0nat, 0nat,
{
    if s.len() == 0 {
        Seq::empty()
    } else {
        let last = s[s.len() - 1];
        segment_tables(s.drop_last(), n).push(segment_table(last.0, last.1, n))
    }
}

/// The table of one segment: the rows of every child of `n` whose name the
/// segment matches, or a single blank row as wide as `sub` if none matches.
pub open spec fn segment_table<'a>(seg: &str, sub: Pattern, n: Element<'a>) -> Seq<Seq<&'a str>>
    decreases sub.children@, 3nat, 0nat,
{
    let rows = matched_rows(seg, sub, n.children@);
    if rows.len() == 0 {
        seq![blank_row(leafs(sub))]
    } else {
        rows
    }
}

/// The rows that `sub` extracts from each node of `kids` whose name `seg`
/// matches, one after the other.
pub open spec fn matched_rows<'a>(seg: &str, sub: Pattern, kids: Seq<Element<'a>>) -> Seq<Seq<&'a str>>
    decreases sub.children@, 2nat, kids.len(),
{
    if kids.len() == 0 {
        Seq::empty()
    } else {
        let last = kids[kids.len() - 1];
        matched_rows(seg, sub, kids.drop_last()) + if wildcard_match(seg@, last.name@) {
            extract_spec(sub, last)
        } else {
            Seq::empty()
        }
    }
}

/// A row of `n` empty cells.
fn make_blank_row<'a>(n: usize) -> (r: Vec<&'a str>)
    ensures
        r@ == blank_row::<'a>(n as nat),
{
    let mut r: Vec<&'a str> = Vec::new();
    let mut i: usize = 0;
    while i < n
        invariant
            i <= n,
            r@ == blank_row::<'a>(i as nat),
        decreases n - i,
    {
        r.push("");
        i = i + 1;
        assert(r@ =~= blank_row::<'a>(i as nat));
    }
    r
}

/// The table that pattern `p` extracts from node `n`. Every row has one cell
/// per leaf of `p`.
pub fn extract<'a>(p: &Pattern, n: &Element<'a>) -> (r: Vec<Vec<&'a str>>)
    requires
        leafs(*p) <= usize::MAX,
    ensures
        rows_of(r) == extract_spec(*p, *n),
    decreases p.children@,
{
    if p.is_leaf() {
        let mut row: Vec<&'a str> = Vec::new();
        row.push(n.text);
        let mut r: Vec<Vec<&'a str>> = Vec::new();
        r.push(row);
        assert(rows_of(r) =~= seq![seq![n.text]]);
        return r;
    }
    let ghost segs = p.children@;
    let mut tables: Vec<Vec<Vec<&'a str>>> = Vec::new();
    let mut i: usize = 0;
    while i < p.children.len()
        invariant
            segs == p.children@,
            segs.len() > 0,
            leafs(*p) == crate::pattern::sum_leafs(segs),
            leafs(*p) <= usize::MAX,
            i <= segs.len(),
            tables_of(tables) == segment_tables(segs.take(i as int), *n),
        decreases segs.len() - i,
    {
        let seg = p.children[i].0;
        let sub = &p.children[i].1;
        proof {
            lemma_leafs_child(segs, i as int);
        }
        let mut rows: Vec<Vec<&'a str>> = Vec::new();
        let mut j: usize = 0;
        while j < n.children.len()
            invariant
                segs == p.children@,
                i < segs.len(),
                tables_of(tables) == segment_tables(segs.take(i as int), *n),
                seg == segs[i as int].0,
                *sub == segs[i as int].1,
                leafs(*sub) <= usize::MAX,
                j <= n.children@.len(),
                rows_of(rows) == matched_rows(seg, *sub, n.children@.take(j as int)),
            decreases n.children@.len() - j,
        {
            let kid = &n.children[j];
            proof {
                assert(n.children@.take(j as int + 1).drop_last() =~= n.children@.take(j as int));
            }
            if Pattern::pattern_check(seg, kid.name) {
                assert(decreases_to!(p.children@ => sub.children@)) by {
                    assert(decreases_to!(p.children@ => p.children@[i as int]));
                    assert(decreases_to!(p.children@[i as int] => p.children@[i as int].1));
                    assert(decreases_to!(sub => sub.children));
                    assert(decreases_to!(sub.children => sub.children@));
                }
                let mut more = extract(sub, kid);
                let ghost before = rows_of(rows);
                rows.append(&mut more);
                proof {
                    assert(rows_of(rows) =~= before + extract_spec(*sub, *kid));
                }
            } else {
                assert(rows_of(rows) =~= rows_of(rows) + Seq::<Seq<&'a str>>::empty());
            }
            j = j + 1;
        }
        assert(n.children@.take(j as int) =~= n.children@);
        if rows.len() == 0 {
            let width = sub.count_leafs();
            rows.push(make_blank_row(width));
            assert(rows_of(rows) =~= seq![blank_row::<'a>(leafs(*sub))]);
        }
        let ghost prev = tables_of(tables);
        tables.push(rows);
        proof {
            let t1 = segs.take(i as int + 1);
            assert(t1.drop_last() =~= segs.take(i as int));
            assert(t1[t1.len() - 1] == segs[i as int]);
            assert(rows_of(rows) == segment_table(seg, *sub, *n));
            assert(segment_tables(t1, *n) == segment_tables(segs.take(i as int), *n).push(segment_table(seg, *sub, *n)));
            assert(tables_of(tables) =~= prev.push(rows_of(rows)));
        }
        i = i + 1;
    }
    assert(segs.take(i as int) =~= segs);
    cartesian_product(&tables)
}

/// The output text for one document: the table that `p` extracts from `root`,
/// cells joined by `|` and each row ended by a newline.
pub fn render_document<'a>(p: &Pattern, root: &Element<'a>) -> (r: String)
    requires
        leafs(*p) <= usize::MAX,
    ensures
        r@ == render(extract_spec(*p, *root)),
{
    let table = extract(p, root);
    render_table(&table)
}

/// A segment that matches no child contributes a single row of empty cells,
/// one per column of its sub-pattern, so crossing with it keeps the number of
/// rows of the other side.
pub proof fn lemma_absence<'a>(seg: &str, sub: Pattern, n: Element<'a>, other: Seq<Seq<&'a str>>)
    requires
        forall|j: int| 0 <= j < n.children@.len() ==> !wildcard_match(seg@, #[trigger] n.children@[j].name@),
    ensures
        segment_table(seg, sub, n) == seq![blank_row::<'a>(leafs(sub))],
        blank_row::<'a>(leafs(sub)).len() == leafs(sub),
        cross(other, segment_table(seg, sub, n)).len() == other.len(),
        cross(segment_table(seg, sub, n), other).len() == other.len(),
{
    lemma_no_match(seg, sub, n.children@);
    lemma_cross_len(other, segment_table(seg, sub, n));
    lemma_cross_len(segment_table(seg, sub, n), other);
}

proof fn lemma_no_match<'a>(seg: &str, sub: Pattern, kids: Seq<Element<'a>>)
    requires
        forall|j: int| 0 <= j < kids.len() ==> !wildcard_match(seg@, #[trigger] kids[j].name@),
    ensures
        matched_rows(seg, sub, kids).len() == 0,
    decreases kids.len(),
{
    if kids.len() > 0 {
        assert(!wildcard_match(seg@, kids[kids.len() - 1].name@));
        lemma_no_match(seg, sub, kids.drop_last());
    }
}

/// In a group of two segments the result is every pairing of a row of the
/// first segment's table with a row of the second's, first segment varying
/// slowest; so it has as many rows as the two tables' row counts multiplied.
pub proof fn lemma_two_segments<'a>(p: Pattern, n: Element<'a>)
    requires
        p.children@.len() == 2,
    ensures
        ({
            let t1 = segment_table(p.children@[0].0, p.children@[0].1, n);
            let t2 = segment_table(p.children@[1].0, p.children@[1].1, n);
            &&& extract_spec(p, n) == cross(t1, t2)
            &&& extract_spec(p, n).len() == t1.len() * t2.len()
            &&& forall|i: int, j: int|
                0 <= i < t1.len() && 0 <= j < t2.len() ==> #[trigger] extract_spec(p, n)[i * t2.len() + j]
                    == t1[i] + t2[j]
        }),
{
    let s = p.children@;
    let t1 = segment_table(s[0].0, s[0].1, n);
    let t2 = segment_table(s[1].0, s[1].1, n);
    assert(s.drop_last().drop_last() =~= Seq::empty());
    let s1 = s.drop_last();
    assert(s1[s1.len() - 1] == s[0]);
    assert(segment_tables(s1.drop_last(), n) == Seq::<Seq<Seq<&'a str>>>::empty());
    assert(segment_tables(s1, n) =~= seq![t1]);
    let ts = segment_tables(s, n);
    assert(ts =~= seq![t1, t2]);
    assert forall|i: int| 0 <= i < ts.len() implies #[trigger] ts[i].len() != 0 by {
        assert(ts[0].len() > 0 && ts[1].len() > 0);
    }
    assert(ts.drop_first() =~= seq![t2]);
    assert(ts.drop_first().drop_first() =~= Seq::<Seq<Seq<&'a str>>>::empty());
    assert(cart(ts.drop_first().drop_first()) == seq![Seq::<&'a str>::empty()]);
    lemma_cross_unit(t2);
    assert(cart(ts.drop_first()) == t2);
    lemma_cross_len(t1, t2);
    assert forall|i: int, j: int| 0 <= i < t1.len() && 0 <= j < t2.len() implies #[trigger] extract_spec(
        p,
        n,
    )[i * t2.len() + j] == t1[i] + t2[j] by {
        lemma_cross_index(t1, t2, i, j);
    }
}

proof fn lemma_segment_tables_index<'a>(s: Seq<(&str, Pattern)>, n: Element<'a>)
    ensures
        segment_tables(s, n).len() == s.len(),
        forall|k: int| 0 <= k < s.len() ==> #[trigger] segment_tables(s, n)[k] == segment_table(s[k].0, s[k].1, n),
    decreases s.len(),
{
    if s.len() > 0 {
        lemma_segment_tables_index(s.drop_last(), n);
        assert forall|k: int| 0 <= k < s.len() implies #[trigger] segment_tables(s, n)[k] == segment_table(
            s[k].0,
            s[k].1,
            n,
        ) by {
            if k < s.len() - 1 {
                assert(s.drop_last()[k] == s[k]);
            }
        }
    }
}

/// Dropping from a group an entry `j` that matches no child keeps the number
/// of rows: with `x` the product of the tables of the entries before `j` and
/// `y` that of the entries after it, the group without the entry gives every
/// `x`-row followed by every `y`-row, and the group with it gives the same rows
/// with `leafs(sub_j)` empty cells between the two parts.
pub proof fn lemma_absent_entry<'a>(p: Pattern, p2: Pattern, n: Element<'a>, j: int)
    requires
        p.children@.len() >= 2,
        0 <= j < p.children@.len(),
        p2.children@ == p.children@.remove(j),
        forall|c: int| 0 <= c < n.children@.len() ==> !wildcard_match(p.children@[j].0@, #[trigger] n.children@[c].name@),
    ensures
        ({
            let ts2 = segment_tables(p2.children@, n);
            let x = cart(ts2.take(j));
            let y = cart(ts2.skip(j));
            let blank = blank_row::<'a>(leafs(p.children@[j].1));
            &&& extract_spec(p2, n) == cross(x, y)
            &&& extract_spec(p, n) == cross(x, y.map_values(|r: Seq<&'a str>| blank + r))
            &&& extract_spec(p, n).len() == extract_spec(p2, n).len()
            &&& blank.len() == leafs(p.children@[j].1)
        }),
{
    let s = p.children@;
    let s2 = p2.children@;
    let ts = segment_tables(s, n);
    let ts2 = segment_tables(s2, n);
    let blank = blank_row::<'a>(leafs(s[j].1));
    lemma_segment_tables_index(s, n);
    lemma_segment_tables_index(s2, n);
    lemma_segment_tables_width(s2, n);
    lemma_absence(s[j].0, s[j].1, n, Seq::empty());
    assert(ts =~= ts2.insert(j, seq![blank])) by {
        assert forall|k: int| 0 <= k < ts.len() implies ts[k] == ts2.insert(j, seq![blank])[k] by {
            if k < j {
                assert(s2[k] == s[k]);
            } else if k > j {
                assert(s2[k - 1] == s[k]);
            }
        }
    }
    assert forall|i: int| 0 <= i < ts2.len() implies (#[trigger] ts2[i]).len() > 0 by {
        assert(segment_tables(s2, n)[i].len() > 0);
    }
    lemma_insert_single_row(ts2, j, blank);
}

/// Every row of every table that a pattern extracts has one cell per column
/// of the pattern, `leafs(p)`.
pub proof fn lemma_extract_width<'a>(p: Pattern, n: Element<'a>)
    ensures
        uniform(extract_spec(p, n), leafs(p)),
    decreases p.children@, 1nat, 0nat,
{
    let s = p.children@;
    if s.len() > 0 {
        lemma_segment_tables_width(s, n);
        let ts = segment_tables(s, n);
        let ws = Seq::new(s.len(), |k: int| leafs(s[k].1));
        assert forall|i: int| 0 <= i < ts.len() implies #[trigger] ts[i].len() != 0 by {
            assert(ts[i].len() > 0);
        }
        assert forall|i: int| 0 <= i < ts.len() implies uniform(#[trigger] ts[i], ws[i]) by {
            assert(uniform(ts[i], leafs(s[i].1)));
        }
        lemma_cart_width(ts, ws);
        lemma_widths_match(s);
    }
}

proof fn lemma_widths_match(s: Seq<(&str, Pattern)>)
    ensures
        widths_sum(Seq::new(s.len(), |k: int| leafs(s[k].1))) == sum_leafs(s),
    decreases s.len(),
{
    let ws = Seq::new(s.len(), |k: int| leafs(s[k].1));
    if s.len() > 0 {
        lemma_widths_sum_last(ws);
        lemma_widths_match(s.drop_last());
        assert(ws.drop_last() =~= Seq::new(s.drop_last().len(), |k: int| leafs(s.drop_last()[k].1)));
    } else {
        assert(ws.len() == 0);
    }
}

proof fn lemma_segment_tables_width<'a>(s: Seq<(&str, Pattern)>, n: Element<'a>)
    ensures
        segment_tables(s, n).len() == s.len(),
        forall|k: int| 0 <= k < s.len() ==> uniform(#[trigger] segment_tables(s, n)[k], leafs(s[k].1))
            && segment_tables(s, n)[k].len() > 0,
    decreases s, 0nat, 0nat,
{
    if s.len() > 0 {
        let last = s[s.len() - 1];
        lemma_segment_tables_width(s.drop_last(), n);
        lemma_segment_table_width(last.0, last.1, n);
        let ts = segment_tables(s, n);
        assert forall|k: int| 0 <= k < s.len() implies uniform(#[trigger] ts[k], leafs(s[k].1))
            && ts[k].len() > 0 by {
            if k < s.len() - 1 {
                assert(ts[k] == segment_tables(s.drop_last(), n)[k]);
                assert(s.drop_last()[k] == s[k]);
            }
        }
    }
}

proof fn lemma_segment_table_width<'a>(seg: &str, sub: Pattern, n: Element<'a>)
    ensures
        uniform(segment_table(seg, sub, n), leafs(sub)),
        segment_table(seg, sub, n).len() > 0,
    decreases sub.children@, 3nat, 0nat,
{
    lemma_matched_width(seg, sub, n.children@);
    let rows = matched_rows(seg, sub, n.children@);
    if rows.len() == 0 {
        assert(blank_row::<'a>(leafs(sub)).len() == leafs(sub));
    }
}

proof fn lemma_matched_width<'a>(seg: &str, sub: Pattern, kids: Seq<Element<'a>>)
    ensures
        uniform(matched_rows(seg, sub, kids), leafs(sub)),
    decreases sub.children@, 2nat, kids.len(),
{
    if kids.len() > 0 {
        let last = kids[kids.len() - 1];
        lemma_matched_width(seg, sub, kids.drop_last());
        lemma_extract_width(sub, last);
    }
}

} // verus!
