//! Tables of cells and their generalised cartesian product.

use vstd::prelude::*;
use vstd::string::StringExecFns;

verus! {

broadcast use vstd::std_specs::vec::group_vec_axioms;

/// The rows of a table, each as a sequence of cells.
pub open spec fn rows_of<T>(t: Vec<Vec<T>>) -> Seq<Seq<T>> {
    t@.map_values(|r: Vec<T>| r@)
}

/// A sequence of tables, each as a sequence of rows.
pub open spec fn tables_of<T>(ts: Vec<Vec<Vec<T>>>) -> Seq<Seq<Seq<T>>> {
    ts@.map_values(|t: Vec<Vec<T>>| rows_of(t))
}

/// Every pairing of a row of `a` with a row of `b`, concatenated; the rows of
/// `a` vary slowest.
pub open spec fn cross<T>(a: Seq<Seq<T>>, b: Seq<Seq<T>>) -> Seq<Seq<T>>
    decreases a.len(),
{
    if a.len() == 0 {
        Seq::empty()
    } else {
        cross(a.drop_last(), b) + b.map_values(|s: Seq<T>| a.last() + s)
    }
}

/// The product of a sequence of tables: one row per choice of one row from
/// each table, the chosen rows concatenated in table order.
pub open spec fn cart<T>(ts: Seq<Seq<Seq<T>>>) -> Seq<Seq<T>>
    decreases ts.len(),
{
    if ts.len() == 0 {
        seq![Seq::empty()]
    } else {
        cross(ts[0], cart(ts.drop_first()))
    }
}

/// What `cartesian_product` returns: nothing for no tables, a single empty row
/// when some table has no rows, and otherwise the product of the tables.
pub open spec fn product<T>(ts: Seq<Seq<Seq<T>>>) -> Seq<Seq<T>> {
    if ts.len() == 0 {
        Seq::empty()
    } else if exists|i: int| 0 <= i < ts.len() && #[trigger] ts[i].len() == 0 {
        seq![Seq::empty()]
    } else {
        cart(ts)
    }
}

/// The product has one row per pair of rows.
pub proof fn lemma_cross_len<T>(a: Seq<Seq<T>>, b: Seq<Seq<T>>)
    ensures
        cross(a, b).len() == a.len() * b.len(),
    decreases a.len(),
{
    if a.len() > 0 {
        lemma_cross_len(a.drop_last(), b);
        assert(a.len() * b.len() == (a.len() - 1) * b.len() + b.len()) by (nonlinear_arith);
    }
}

/// Row `i * b.len() + j` of the product of `a` and `b` is row `i` of `a`
/// followed by row `j` of `b`.
pub proof fn lemma_cross_index<T>(a: Seq<Seq<T>>, b: Seq<Seq<T>>, i: int, j: int)
    requires
        0 <= i < a.len(),
        0 <= j < b.len(),
    ensures
        0 <= i * b.len() + j < cross(a, b).len(),
        cross(a, b)[i * b.len() + j] == a[i] + b[j],
    decreases a.len(),
{
    lemma_cross_len(a, b);
    lemma_cross_len(a.drop_last(), b);
    let m = b.len() as int;
    assert(0 <= i * m + j < a.len() * m) by (nonlinear_arith)
        requires 0 <= i < a.len(), 0 <= j < m;
    if i < a.len() - 1 {
        lemma_cross_index(a.drop_last(), b, i, j);
    } else {
        assert(i * m == (a.len() - 1) * m);
        assert(b.map_values(|s: Seq<T>| a.last() + s)[j] == a.last() + b[j]);
    }
}

proof fn lemma_cross_concat_left<T>(u: Seq<Seq<T>>, v: Seq<Seq<T>>, q: Seq<Seq<T>>)
    ensures
        cross(u + v, q) == cross(u, q) + cross(v, q),
    decreases v.len(),
{
    if v.len() == 0 {
        assert(u + v =~= u);
        assert(cross(u, q) + cross(v, q) =~= cross(u, q));
    } else {
        lemma_cross_concat_left(u, v.drop_last(), q);
        assert((u + v).drop_last() =~= u + v.drop_last());
        assert((u + v).last() == v.last());
        assert(cross(u, q) + cross(v, q) =~= cross(u, q) + cross(v.drop_last(), q) + q.map_values(
            |s: Seq<T>| v.last() + s,
        ));
    }
}

proof fn lemma_cross_map_left<T>(l: Seq<T>, p: Seq<Seq<T>>, q: Seq<Seq<T>>)
    ensures
        cross(p.map_values(|r: Seq<T>| l + r), q) == cross(p, q).map_values(|r: Seq<T>| l + r),
    decreases p.len(),
{
    let pm = p.map_values(|r: Seq<T>| l + r);
    if p.len() == 0 {
        assert(cross(p, q).map_values(|r: Seq<T>| l + r) =~= Seq::<Seq<T>>::empty());
    } else {
        lemma_cross_map_left(l, p.drop_last(), q);
        assert(pm.drop_last() =~= p.drop_last().map_values(|r: Seq<T>| l + r));
        assert(pm.last() == l + p.last());
        let x = cross(p.drop_last(), q);
        let y = q.map_values(|s: Seq<T>| p.last() + s);
        let lhs_tail = q.map_values(|s: Seq<T>| pm.last() + s);
        assert forall|k: int| 0 <= k < q.len() implies lhs_tail[k] == y.map_values(|r: Seq<T>| l + r)[k] by {
            assert((l + p.last()) + q[k] =~= l + (p.last() + q[k]));
        }
        assert(lhs_tail =~= y.map_values(|r: Seq<T>| l + r));
        assert((x + y).map_values(|r: Seq<T>| l + r) =~= x.map_values(|r: Seq<T>| l + r) + y.map_values(
            |r: Seq<T>| l + r,
        ));
    }
}

proof fn lemma_cross_assoc<T>(x: Seq<Seq<T>>, p: Seq<Seq<T>>, q: Seq<Seq<T>>)
    ensures
        cross(x, cross(p, q)) == cross(cross(x, p), q),
    decreases x.len(),
{
    if x.len() == 0 {
        assert(cross(x, p) == Seq::<Seq<T>>::empty());
    } else {
        let xl = x.last();
        lemma_cross_assoc(x.drop_last(), p, q);
        lemma_cross_concat_left(cross(x.drop_last(), p), p.map_values(|s: Seq<T>| xl + s), q);
        lemma_cross_map_left(xl, p, q);
    }
}

/// The product of two sequences of tables put one after the other is the
/// product of their products.
pub proof fn lemma_cart_concat<T>(a: Seq<Seq<Seq<T>>>, b: Seq<Seq<Seq<T>>>)
    ensures
        cart(a + b) == cross(cart(a), cart(b)),
    decreases a.len(),
{
    if a.len() == 0 {
        assert(a + b =~= b);
        let cb = cart(b);
        let e = seq![Seq::<T>::empty()];
        assert(e.drop_last() =~= Seq::<Seq<T>>::empty());
        assert(cross(e, cb) == cross(e.drop_last(), cb) + cb.map_values(|s: Seq<T>| e.last() + s));
        assert(cb.map_values(|s: Seq<T>| e.last() + s) =~= cb) by {
            assert forall|k: int| 0 <= k < cb.len() implies cb.map_values(|s: Seq<T>| e.last() + s)[k]
                == cb[k] by {
                assert(Seq::<T>::empty() + cb[k] =~= cb[k]);
            }
        }
    } else {
        lemma_cart_concat(a.drop_first(), b);
        assert((a + b).drop_first() =~= a.drop_first() + b);
        assert((a + b)[0] == a[0]);
        lemma_cross_assoc(a[0], cart(a.drop_first()), cart(b));
    }
}

/// Inserting a table of one row `s` at position `j` among non-empty tables
/// keeps the number of rows of the product, and puts `s` in each row right
/// after the cells taken from the tables before `j`: with `x` the product of
/// the tables before `j` and `y` that of the rest, the product is every
/// `x`-row followed by every `y`-row, and after the insertion every `x`-row
/// followed by `s` and every `y`-row.
pub proof fn lemma_insert_single_row<T>(ts: Seq<Seq<Seq<T>>>, j: int, s: Seq<T>)
    requires
        ts.len() >= 1,
        0 <= j <= ts.len(),
        forall|i: int| 0 <= i < ts.len() ==> (#[trigger] ts[i]).len() > 0,
    ensures
        ({
            let u = ts.insert(j, seq![s]);
            let x = cart(ts.take(j));
            let y = cart(ts.skip(j));
            &&& product(ts) == cross(x, y)
            &&& product(u) == cross(x, y.map_values(|r: Seq<T>| s + r))
            &&& product(u).len() == product(ts).len()
        }),
{
    let u = ts.insert(j, seq![s]);
    let x = cart(ts.take(j));
    let y = cart(ts.skip(j));
    let ys = y.map_values(|r: Seq<T>| s + r);
    assert(ts =~= ts.take(j) + ts.skip(j));
    lemma_cart_concat(ts.take(j), ts.skip(j));
    let tail = seq![seq![s]] + ts.skip(j);
    assert(u =~= ts.take(j) + tail);
    lemma_cart_concat(ts.take(j), tail);
    assert(tail.drop_first() =~= ts.skip(j));
    assert(tail[0] == seq![s]);
    let one = seq![s];
    assert(one.drop_last() =~= Seq::<Seq<T>>::empty());
    assert(cross(one, y) == cross(one.drop_last(), y) + y.map_values(|r: Seq<T>| one.last() + r));
    assert(cross(one, y) =~= ys);
    assert(!(exists|i: int| 0 <= i < ts.len() && #[trigger] ts[i].len() == 0));
    assert forall|i: int| 0 <= i < u.len() implies (#[trigger] u[i]).len() != 0 by {
        if i < j {
            assert(u[i] == ts[i]);
        } else if i > j {
            assert(u[i] == ts[i - 1]);
        }
    }
    lemma_cross_len(x, y);
    lemma_cross_len(x, ys);
}

/// Every row of `t` has `w` cells.
pub open spec fn uniform<T>(t: Seq<Seq<T>>, w: nat) -> bool {
    forall|i: int| 0 <= i < t.len() ==> (#[trigger] t[i]).len() == w
}

/// The sum of a sequence of widths.
pub open spec fn widths_sum(ws: Seq<nat>) -> nat
    decreases ws.len(),
{
    if ws.len() == 0 {
        0
    } else {
        ws[0] + widths_sum(ws.drop_first())
    }
}

/// The sum of widths, taken from the end.
pub proof fn lemma_widths_sum_last(ws: Seq<nat>)
    requires
        ws.len() > 0,
    ensures
        widths_sum(ws) == widths_sum(ws.drop_last()) + ws.last(),
    decreases ws.len(),
{
    if ws.len() > 1 {
        lemma_widths_sum_last(ws.drop_first());
        assert(ws.drop_first().drop_last() =~= ws.drop_last().drop_first());
    } else {
        assert(ws.drop_first() =~= Seq::<nat>::empty());
        assert(ws.drop_last() =~= Seq::<nat>::empty());
    }
}

/// Crossing tables of widths `wa` and `wb` gives rows of width `wa + wb`.
pub proof fn lemma_cross_width<T>(a: Seq<Seq<T>>, b: Seq<Seq<T>>, wa: nat, wb: nat)
    requires
        uniform(a, wa),
        uniform(b, wb),
    ensures
        uniform(cross(a, b), wa + wb),
    decreases a.len(),
{
    if a.len() > 0 {
        lemma_cross_width(a.drop_last(), b, wa, wb);
        let x = cross(a.drop_last(), b);
        let y = b.map_values(|s: Seq<T>| a.last() + s);
        assert forall|i: int| 0 <= i < (x + y).len() implies (#[trigger] (x + y)[i]).len() == wa + wb by {
            if i >= x.len() {
                assert(y[i - x.len()] == a.last() + b[i - x.len()]);
            }
        }
    }
}

/// The product of tables whose rows have widths `ws` has rows of the summed
/// width.
pub proof fn lemma_cart_width<T>(ts: Seq<Seq<Seq<T>>>, ws: Seq<nat>)
    requires
        ts.len() == ws.len(),
        forall|i: int| 0 <= i < ts.len() ==> uniform(#[trigger] ts[i], ws[i]),
    ensures
        uniform(cart(ts), widths_sum(ws)),
    decreases ts.len(),
{
    if ts.len() > 0 {
        assert forall|i: int| 0 <= i < ts.drop_first().len() implies uniform(
            #[trigger] ts.drop_first()[i],
            ws.drop_first()[i],
        ) by {
            assert(uniform(ts[i + 1], ws[i + 1]));
        }
        lemma_cart_width(ts.drop_first(), ws.drop_first());
        assert(uniform(ts[0], ws[0]));
        lemma_cross_width(ts[0], cart(ts.drop_first()), ws[0], widths_sum(ws.drop_first()));
    } else {
        assert(cart(ts) == seq![Seq::<T>::empty()]);
    }
}

/// A table with one empty row.
fn unit_table<T>() -> (r: Vec<Vec<T>>)
    ensures
        rows_of(r) == seq![Seq::<T>::empty()],
{
    let mut r: Vec<Vec<T>> = Vec::new();
    r.push(Vec::new());
    assert(rows_of(r) =~= seq![Seq::<T>::empty()]);
    r
}

/// Copies a row.
fn copy_row<T: Copy>(row: &Vec<T>) -> (r: Vec<T>)
    ensures
        r@ == row@,
{
    let mut r: Vec<T> = Vec::new();
    let mut i: usize = 0;
    while i < row.len()
        invariant
            i <= row@.len(),
            r@ == row@.take(i as int),
        decreases row@.len() - i,
    {
        r.push(row[i]);
        i = i + 1;
        assert(r@ =~= row@.take(i as int));
    }
    assert(row@.take(i as int) =~= row@);
    r
}

/// Concatenation of two rows.
fn join_rows<T: Copy>(a: &Vec<T>, b: &Vec<T>) -> (r: Vec<T>)
    ensures
        r@ == a@ + b@,
{
    let mut r = copy_row(a);
    let mut i: usize = 0;
    while i < b.len()
        invariant
            i <= b@.len(),
            r@ == a@ + b@.take(i as int),
        decreases b@.len() - i,
    {
        r.push(b[i]);
        i = i + 1;
        assert(r@ =~= a@ + b@.take(i as int));
    }
    assert(b@.take(i as int) =~= b@);
    r
}

/// Every row of `a` joined with every row of `b`, the rows of `a` varying slowest.
fn cross_tables<T: Copy>(a: &Vec<Vec<T>>, b: &Vec<Vec<T>>) -> (r: Vec<Vec<T>>)
    ensures
        rows_of(r) == cross(rows_of(*a), rows_of(*b)),
{
    let ghost ra = rows_of(*a);
    let ghost rb = rows_of(*b);
    let mut r: Vec<Vec<T>> = Vec::new();
    let mut i: usize = 0;
    while i < a.len()
        invariant
            i <= a@.len(),
            ra == rows_of(*a),
            rb == rows_of(*b),
            rows_of(r) == cross(ra.take(i as int), rb),
        decreases a@.len() - i,
    {
        let mut j: usize = 0;
        let ghost before = rows_of(r);
        while j < b.len()
            invariant
                i < a@.len(),
                j <= b@.len(),
                ra == rows_of(*a),
                rb == rows_of(*b),
                rows_of(r) == before + rb.take(j as int).map_values(|s: Seq<T>| ra[i as int] + s),
            decreases b@.len() - j,
        {
            let ghost prev = r@;
            let ghost old_rows = rows_of(r);
            let row = join_rows(&a[i], &b[j]);
            r.push(row);
            j = j + 1;
            proof {
                let f = |s: Seq<T>| ra[i as int] + s;
                let x = rb.take(j as int - 1).map_values(f);
                let y = rb.take(j as int).map_values(f);
                assert(r@ == prev.push(row));
                assert(ra[i as int] == a@[i as int]@);
                assert(rb[j as int - 1] == b@[j as int - 1]@);
                assert(y =~= x.push(ra[i as int] + rb[j as int - 1]));
                assert(rows_of(r) =~= old_rows.push(row@));
            }
            assert(rows_of(r) =~= before + rb.take(j as int).map_values(|s: Seq<T>| ra[i as int] + s));
        }
        proof {
            assert(rb.take(j as int) =~= rb);
            assert(ra.take(i as int + 1).drop_last() =~= ra.take(i as int));
            assert(ra.take(i as int + 1).last() == ra[i as int]);
        }
        i = i + 1;
    }
    assert(ra.take(i as int) =~= ra);
    r
}

/// Generalised cartesian product of a sequence of tables: one row for each
/// combination of one row from each table, the chosen rows concatenated in
/// table order. No tables give no rows; a table without rows gives a single
/// empty row; a single table is returned as it is.
pub fn cartesian_product<T: Copy>(tables: &Vec<Vec<Vec<T>>>) -> (r: Vec<Vec<T>>)
    ensures
        rows_of(r) == product(tables_of(*tables)),
{
    let ghost ts = tables_of(*tables);
    if tables.len() == 0 {
        let r: Vec<Vec<T>> = Vec::new();
        assert(rows_of(r) =~= Seq::<Seq<T>>::empty());
        return r;
    }
    let mut k: usize = 0;
    while k < tables.len()
        invariant
            k <= tables@.len(),
            ts == tables_of(*tables),
            forall|m: int| 0 <= m < k ==> #[trigger] ts[m].len() > 0,
        decreases tables@.len() - k,
    {
        if tables[k].len() == 0 {
            assert(ts[k as int].len() == 0);
            return unit_table();
        }
        k = k + 1;
    }
    let mut acc: Vec<Vec<T>> = unit_table();
    let mut i: usize = tables.len();
    while i > 0
        invariant
            i <= tables@.len(),
            ts == tables_of(*tables),
            rows_of(acc) == cart(ts.subrange(i as int, ts.len() as int)),
        decreases i,
    {
        i = i - 1;
        proof {
            let s = ts.subrange(i as int, ts.len() as int);
            assert(s.drop_first() =~= ts.subrange(i as int + 1, ts.len() as int));
            assert(s[0] == ts[i as int]);
        }
        acc = cross_tables(&tables[i], &acc);
    }
    assert(ts.subrange(0, ts.len() as int) =~= ts);
    proof {
        lemma_cart_single(ts);
    }
    acc
}

/// The product of a single table is that table.
proof fn lemma_cart_single<T>(ts: Seq<Seq<Seq<T>>>)
    ensures
        ts.len() == 1 ==> cart(ts) == ts[0],
{
    if ts.len() == 1 {
        let t = ts[0];
        assert(ts.drop_first() =~= Seq::<Seq<Seq<T>>>::empty());
        assert(cart(ts.drop_first()) == seq![Seq::<T>::empty()]);
        lemma_cross_unit(t);
    }
}

/// Crossing with a table of one empty row changes nothing.
pub proof fn lemma_cross_unit<T>(t: Seq<Seq<T>>)
    ensures
        cross(t, seq![Seq::<T>::empty()]) == t,
    decreases t.len(),
{
    if t.len() > 0 {
        lemma_cross_unit(t.drop_last());
        let u = seq![Seq::<T>::empty()];
        assert(u.map_values(|s: Seq<T>| t.last() + s) =~= seq![t.last()]) by {
            assert(t.last() + Seq::<T>::empty() =~= t.last());
        }
        assert(t.drop_last().push(t.last()) =~= t);
    }
}

/// The text of a row: its cells joined by `|`.
pub open spec fn render_row(row: Seq<&str>) -> Seq<char>
    decreases row.len(),
{
    if row.len() == 0 {
        Seq::empty()
    } else if row.len() == 1 {
        row[0]@
    } else {
        render_row(row.drop_last()) + seq!['|'] + row.last()@
    }
}

/// The text of a table: each row's text followed by a newline.
pub open spec fn render(t: Seq<Seq<&str>>) -> Seq<char>
    decreases t.len(),
{
    if t.len() == 0 {
        Seq::empty()
    } else {
        render(t.drop_last()) + render_row(t.last()) + seq!['\n']
    }
}

/// Serialises a table: cells joined by `|`, each row ended by a newline.
/// Cells are written as they are, without escaping.
pub fn render_table(table: &Vec<Vec<&str>>) -> (r: String)
    ensures
        r@ == render(rows_of(*table)),
{
    proof {
        reveal_strlit("|");
        reveal_strlit("\n");
        assert("|"@ =~= seq!['|']);
        assert("\n"@ =~= seq!['\n']);
    }
    let ghost t = rows_of(*table);
    let mut out = String::new();
    let mut i: usize = 0;
    while i < table.len()
        invariant
            t == rows_of(*table),
            "|"@ == seq!['|'],
            "\n"@ == seq!['\n'],
            i <= t.len(),
            out@ == render(t.take(i as int)),
        decreases t.len() - i,
    {
        let line = &table[i];
        let ghost row = line@;
        let ghost base = out@;
        let mut j: usize = 0;
        while j < line.len()
            invariant
                row == line@,
                "|"@ == seq!['|'],
                j <= row.len(),
                out@ == base + render_row(row.take(j as int)),
            decreases row.len() - j,
        {
            proof {
                let r1 = row.take(j as int + 1);
                assert(r1.drop_last() =~= row.take(j as int));
                assert(r1.last() == row[j as int]);
            }
            let ghost before = out@;
            if j > 0 {
                out.append("|");
                assert(out@ =~= before + seq!['|']);
            }
            out.append(line[j]);
            proof {
                let r1 = row.take(j as int + 1);
                if j == 0 {
                    assert(render_row(r1) == row[0]@);
                    assert(render_row(row.take(0)) =~= Seq::<char>::empty());
                } else {
                    assert(render_row(r1) == render_row(row.take(j as int)) + seq!['|'] + row[j as int]@);
                }
            }
            j = j + 1;
            assert(out@ =~= base + render_row(row.take(j as int)));
        }
        let ghost before = out@;
        out.append("\n");
        proof {
            assert(out@ =~= before + seq!['\n']);
            let t1 = t.take(i as int + 1);
            assert(t1.drop_last() =~= t.take(i as int));
            assert(row.take(j as int) =~= row);
            assert(t1.last() == row);
        }
        i = i + 1;
        assert(out@ =~= render(t.take(i as int)));
    }
    assert(t.take(i as int) =~= t);
    out
}

} // verus!
