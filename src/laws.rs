use vstd::prelude::*;
use crate::join::{
    extra_cols, extra_vals, join_rows, join_view, kept, lemma_kept, lemma_push_contains,
    lemma_rows_fit_drop_last, matches_for, rows_match, shares,
};
use crate::relation::{RelationView, rows_fit, well_formed};

verus! {

proof fn lemma_concat_contains<A>(p: Seq<A>, q: Seq<A>, x: A)
    ensures
        (p + q).contains(x) == (p.contains(x) || q.contains(x)),
{
    if p.contains(x) {
        let t = choose|t: int| 0 <= t < p.len() && p[t] == x;
        assert((p + q)[t] == x);
    }
    if q.contains(x) {
        let t = choose|t: int| 0 <= t < q.len() && q[t] == x;
        assert((p + q)[p.len() + t] == x);
    }
    if (p + q).contains(x) {
        let t = choose|t: int| 0 <= t < (p + q).len() && (p + q)[t] == x;
        if t < p.len() {
            assert(p[t] == x);
        } else {
            assert(q[t - p.len()] == x);
        }
    }
}

proof fn lemma_matches_for_contains(
    a: Seq<Seq<char>>,
    b: Seq<Seq<char>>,
    ls: Seq<Seq<i64>>,
    s: Seq<i64>,
    x: Seq<i64>,
)
    ensures
        matches_for(a, b, ls, s).contains(x) <==> exists|i: int|
            0 <= i < ls.len() && #[trigger] rows_match(a, b, ls[i], s) && x == ls[i] + extra_vals(a, b, s),
    decreases ls.len(),
{
    if ls.len() > 0 {
        let d = ls.drop_last();
        let p = matches_for(a, b, d, s);
        let y = ls.last() + extra_vals(a, b, s);
        lemma_matches_for_contains(a, b, d, s, x);
        lemma_push_contains(p, x, y);
        if matches_for(a, b, ls, s).contains(x) {
            if p.contains(x) {
                let i = choose|i: int|
                    0 <= i < d.len() && #[trigger] rows_match(a, b, d[i], s) && x == d[i] + extra_vals(a, b, s);
                assert(d[i] == ls[i]);
            } else {
                assert(rows_match(a, b, ls[ls.len() - 1], s));
            }
        }
        if exists|i: int|
            0 <= i < ls.len() && #[trigger] rows_match(a, b, ls[i], s) && x == ls[i] + extra_vals(a, b, s) {
            let i = choose|i: int|
                0 <= i < ls.len() && #[trigger] rows_match(a, b, ls[i], s) && x == ls[i] + extra_vals(a, b, s);
            if i < ls.len() - 1 {
                assert(d[i] == ls[i]);
                assert(rows_match(a, b, d[i], s));
            }
        }
    }
}

proof fn lemma_join_rows_contains(
    a: Seq<Seq<char>>,
    b: Seq<Seq<char>>,
    ls: Seq<Seq<i64>>,
    ss: Seq<Seq<i64>>,
    x: Seq<i64>,
)
    ensures
        join_rows(a, b, ls, ss).contains(x) <==> exists|j: int|
            0 <= j < ss.len() && #[trigger] matches_for(a, b, ls, ss[j]).contains(x),
    decreases ss.len(),
{
    if ss.len() > 0 {
        let d = ss.drop_last();
        lemma_join_rows_contains(a, b, ls, d, x);
        lemma_concat_contains(join_rows(a, b, ls, d), matches_for(a, b, ls, ss.last()), x);
        if exists|j: int| 0 <= j < ss.len() && #[trigger] matches_for(a, b, ls, ss[j]).contains(x) {
            let j = choose|j: int| 0 <= j < ss.len() && #[trigger] matches_for(a, b, ls, ss[j]).contains(x);
            if j < ss.len() - 1 {
                assert(d[j] == ss[j]);
            }
        }
        if join_rows(a, b, ls, d).contains(x) {
            let j = choose|j: int| 0 <= j < d.len() && #[trigger] matches_for(a, b, ls, d[j]).contains(x);
            assert(d[j] == ss[j]);
        }
    }
}

/// Inner join: a row is in the join of `l` and `r` exactly when it is a row
/// of `l` followed by the values, under the columns `l` lacks, of a row of
/// `r` that agrees with it on every column name the two share.
pub proof fn join_is_inner_join(l: RelationView, r: RelationView, x: Seq<i64>)
    ensures
        join_view(l, r).rows.contains(x) <==> exists|i: int, j: int|
            0 <= i < l.rows.len() && 0 <= j < r.rows.len() && #[trigger] rows_match(
                l.cols,
                r.cols,
                l.rows[i],
                r.rows[j],
            ) && x == l.rows[i] + extra_vals(l.cols, r.cols, r.rows[j]),
{
    let (a, b, ls, ss) = (l.cols, r.cols, l.rows, r.rows);
    lemma_join_rows_contains(a, b, ls, ss, x);
    if join_view(l, r).rows.contains(x) {
        let j = choose|j: int| 0 <= j < ss.len() && #[trigger] matches_for(a, b, ls, ss[j]).contains(x);
        lemma_matches_for_contains(a, b, ls, ss[j], x);
        let i = choose|i: int|
            0 <= i < ls.len() && #[trigger] rows_match(a, b, ls[i], ss[j]) && x == ls[i] + extra_vals(a, b, ss[j]);
        assert(rows_match(a, b, ls[i], ss[j]));
    }
    if exists|i: int, j: int|
        0 <= i < ls.len() && 0 <= j < ss.len() && #[trigger] rows_match(a, b, ls[i], ss[j]) && x == ls[i]
            + extra_vals(a, b, ss[j]) {
        let (i, j) = choose|i: int, j: int|
            0 <= i < ls.len() && 0 <= j < ss.len() && #[trigger] rows_match(a, b, ls[i], ss[j]) && x == ls[i]
                + extra_vals(a, b, ss[j]);
        lemma_matches_for_contains(a, b, ls, ss[j], x);
        assert(matches_for(a, b, ls, ss[j]).contains(x));
    }
}

/// How many left rows of `ls` agree with the right row `s`.
pub open spec fn count_partners(a: Seq<Seq<char>>, b: Seq<Seq<char>>, ls: Seq<Seq<i64>>, s: Seq<i64>) -> nat
    decreases ls.len(),
{
    if ls.len() == 0 {
        0
    } else {
        count_partners(a, b, ls.drop_last(), s) + if rows_match(a, b, ls.last(), s) {
            1nat
        } else {
            0nat
        }
    }
}

/// How many pairs of a left row of `ls` and a right row of `ss` agree.
pub open spec fn count_pairs(a: Seq<Seq<char>>, b: Seq<Seq<char>>, ls: Seq<Seq<i64>>, ss: Seq<Seq<i64>>) -> nat
    decreases ss.len(),
{
    if ss.len() == 0 {
        0
    } else {
        count_pairs(a, b, ls, ss.drop_last()) + count_partners(a, b, ls, ss.last())
    }
}

proof fn lemma_matches_for_len(a: Seq<Seq<char>>, b: Seq<Seq<char>>, ls: Seq<Seq<i64>>, s: Seq<i64>)
    ensures
        matches_for(a, b, ls, s).len() == count_partners(a, b, ls, s),
    decreases ls.len(),
{
    if ls.len() > 0 {
        lemma_matches_for_len(a, b, ls.drop_last(), s);
    }
}

proof fn lemma_join_rows_len(a: Seq<Seq<char>>, b: Seq<Seq<char>>, ls: Seq<Seq<i64>>, ss: Seq<Seq<i64>>)
    ensures
        join_rows(a, b, ls, ss).len() == count_pairs(a, b, ls, ss),
    decreases ss.len(),
{
    if ss.len() > 0 {
        lemma_join_rows_len(a, b, ls, ss.drop_last());
        lemma_matches_for_len(a, b, ls, ss.last());
    }
}

/// The join holds exactly one row for each pair of a left and a right row
/// that agree on every shared column name.
pub proof fn join_row_per_matching_pair(l: RelationView, r: RelationView)
    ensures
        join_view(l, r).rows.len() == count_pairs(l.cols, r.cols, l.rows, r.rows),
{
    lemma_join_rows_len(l.cols, r.cols, l.rows, r.rows);
}

proof fn lemma_matches_for_all(a: Seq<Seq<char>>, b: Seq<Seq<char>>, ls: Seq<Seq<i64>>, s: Seq<i64>)
    requires
        !shares(a, b),
    ensures
        matches_for(a, b, ls, s).len() == ls.len(),
    decreases ls.len(),
{
    if ls.len() > 0 {
        lemma_matches_for_all(a, b, ls.drop_last(), s);
        assert(rows_match(a, b, ls.last(), s));
    }
}

proof fn lemma_join_rows_all(a: Seq<Seq<char>>, b: Seq<Seq<char>>, ls: Seq<Seq<i64>>, ss: Seq<Seq<i64>>)
    requires
        !shares(a, b),
    ensures
        join_rows(a, b, ls, ss).len() == ls.len() * ss.len(),
    decreases ss.len(),
{
    if ss.len() > 0 {
        lemma_join_rows_all(a, b, ls, ss.drop_last());
        lemma_matches_for_all(a, b, ls, ss.last());
        let (m, k) = (ls.len() as int, ss.len() as int);
        assert(m * (k - 1) + m == m * k) by (nonlinear_arith);
    }
}

/// Relations that share no column name join to their cross product: one row
/// for each pair of a left and a right row.
pub proof fn join_without_shared_names_is_cross_product(l: RelationView, r: RelationView)
    requires
        !shares(l.cols, r.cols),
    ensures
        join_view(l, r).rows.len() == l.rows.len() * r.rows.len(),
{
    lemma_join_rows_all(l.cols, r.cols, l.rows, r.rows);
}

/// The row `x` carries the key `k`: on every left column whose name the
/// right columns also hold, `x` has the value that `k` has.
pub open spec fn same_key(a: Seq<Seq<char>>, b: Seq<Seq<char>>, x: Seq<i64>, k: Seq<i64>) -> bool {
    forall|i: int, j: int|
        #![trigger a[i], b[j]]
        0 <= i < a.len() && 0 <= j < b.len() && a[i] == b[j] ==> x[i] == k[i]
}

/// How many of `rows` carry the key `k`.
pub open spec fn count_key(a: Seq<Seq<char>>, b: Seq<Seq<char>>, rows: Seq<Seq<i64>>, k: Seq<i64>) -> nat
    decreases rows.len(),
{
    if rows.len() == 0 {
        0
    } else {
        count_key(a, b, rows.drop_last(), k) + if same_key(a, b, rows.last(), k) {
            1nat
        } else {
            0nat
        }
    }
}

/// How many of the right rows `rows` agree with the left row `k`.
pub open spec fn count_matching(a: Seq<Seq<char>>, b: Seq<Seq<char>>, rows: Seq<Seq<i64>>, k: Seq<i64>) -> nat
    decreases rows.len(),
{
    if rows.len() == 0 {
        0
    } else {
        count_matching(a, b, rows.drop_last(), k) + if rows_match(a, b, k, rows.last()) {
            1nat
        } else {
            0nat
        }
    }
}

proof fn lemma_count_key_concat(a: Seq<Seq<char>>, b: Seq<Seq<char>>, p: Seq<Seq<i64>>, q: Seq<Seq<i64>>, k: Seq<i64>)
    ensures
        count_key(a, b, p + q, k) == count_key(a, b, p, k) + count_key(a, b, q, k),
    decreases q.len(),
{
    if q.len() == 0 {
        assert(p + q =~= p);
    } else {
        assert((p + q).drop_last() =~= p + q.drop_last());
        lemma_count_key_concat(a, b, p, q.drop_last(), k);
    }
}

proof fn lemma_count_matches_for(a: Seq<Seq<char>>, b: Seq<Seq<char>>, ls: Seq<Seq<i64>>, s: Seq<i64>, k: Seq<i64>)
    requires
        rows_fit(ls, a.len() as int),
        k.len() == a.len(),
    ensures
        count_key(a, b, matches_for(a, b, ls, s), k) == if rows_match(a, b, k, s) {
            count_key(a, b, ls, k)
        } else {
            0
        },
    decreases ls.len(),
{
    if ls.len() > 0 {
        let d = ls.drop_last();
        lemma_rows_fit_drop_last(ls, a.len() as int);
        lemma_count_matches_for(a, b, d, s, k);
        let l = ls.last();
        assert(l.len() == a.len());
        let y = l + extra_vals(a, b, s);
        assert(same_key(a, b, y, k) == same_key(a, b, l, k)) by {
            assert forall|i: int| 0 <= i < a.len() implies y[i] == l[i] by {}
        }
        if rows_match(a, b, l, s) {
            let p = matches_for(a, b, d, s);
            assert(p.push(y).drop_last() =~= p);
        }
        if same_key(a, b, l, k) {
            assert(rows_match(a, b, l, s) == rows_match(a, b, k, s));
        }
    }
}

proof fn lemma_count_join_rows(a: Seq<Seq<char>>, b: Seq<Seq<char>>, ls: Seq<Seq<i64>>, ss: Seq<Seq<i64>>, k: Seq<i64>)
    requires
        rows_fit(ls, a.len() as int),
        k.len() == a.len(),
    ensures
        count_key(a, b, join_rows(a, b, ls, ss), k) == count_key(a, b, ls, k) * count_matching(a, b, ss, k),
    decreases ss.len(),
{
    if ss.len() > 0 {
        let d = ss.drop_last();
        lemma_count_join_rows(a, b, ls, d, k);
        lemma_count_key_concat(a, b, join_rows(a, b, ls, d), matches_for(a, b, ls, ss.last()), k);
        lemma_count_matches_for(a, b, ls, ss.last(), k);
        let (c, m) = (count_key(a, b, ls, k) as int, count_matching(a, b, d, k) as int);
        assert(c * m + c == c * (m + 1)) by (nonlinear_arith);
        if rows_match(a, b, k, ss.last()) {
            assert(count_matching(a, b, ss, k) == m + 1);
        } else {
            assert(count_matching(a, b, ss, k) == m);
        }
    } else {
        assert(count_key(a, b, ls, k) * 0 == 0);
    }
}

/// Many-to-many: for the key `k` of a left row, the join holds exactly
/// (left rows with key `k`) times (right rows that agree with `k`) rows
/// with that key.
pub proof fn join_many_to_many(l: RelationView, r: RelationView, k: Seq<i64>)
    requires
        well_formed(l),
        k.len() == l.cols.len(),
    ensures
        count_key(l.cols, r.cols, join_view(l, r).rows, k) == count_key(l.cols, r.cols, l.rows, k)
            * count_matching(l.cols, r.cols, r.rows, k),
{
    lemma_count_join_rows(l.cols, r.cols, l.rows, r.rows, k);
}

/// The joined columns are the left columns followed by the right columns the
/// left lacks: a name is among them exactly when it is among either side's,
/// and when neither side repeats a name, neither does the join.
pub proof fn joined_columns(l: RelationView, r: RelationView)
    ensures
        join_view(l, r).cols == l.cols + extra_cols(l.cols, r.cols),
        forall|x: Seq<char>|
            #[trigger] join_view(l, r).cols.contains(x) <==> l.cols.contains(x) || r.cols.contains(x),
        forall|x: Seq<char>|
            #[trigger] extra_cols(l.cols, r.cols).contains(x) <==> r.cols.contains(x) && !l.cols.contains(x),
        l.cols.no_duplicates() && r.cols.no_duplicates() ==> join_view(l, r).cols.no_duplicates(),
{
    let (a, b) = (l.cols, r.cols);
    let e = extra_cols(a, b);
    let kp = kept(a, b);
    lemma_kept(a, b);
    assert forall|x: Seq<char>| #[trigger] e.contains(x) <==> b.contains(x) && !a.contains(x) by {
        if e.contains(x) {
            let t = choose|t: int| 0 <= t < e.len() && e[t] == x;
            assert(b[kp[t]] == x);
        }
        if b.contains(x) && !a.contains(x) {
            let j = choose|j: int| 0 <= j < b.len() && b[j] == x;
            assert(kp.contains(j));
            let t = choose|t: int| 0 <= t < kp.len() && kp[t] == j;
            assert(e[t] == x);
        }
    }
    assert forall|x: Seq<char>| #[trigger] join_view(l, r).cols.contains(x) <==> a.contains(x) || b.contains(x) by {
        lemma_concat_contains(a, e, x);
    }
    if a.no_duplicates() && b.no_duplicates() {
        assert(e.no_duplicates()) by {
            assert forall|t: int, u: int| 0 <= t < e.len() && 0 <= u < e.len() && t != u implies e[t] != e[u] by {
                if t < u {
                    assert(kp[t] < kp[u]);
                } else {
                    assert(kp[u] < kp[t]);
                }
            }
        }
        assert forall|i: int, j: int| 0 <= i < a.len() && 0 <= j < e.len() implies a[i] != e[j] by {
            assert(e.contains(e[j]));
        }
        vstd::seq_lib::lemma_no_dup_in_concat(a, e);
    }
}

/// Building a relation twice from the same column names and rows gives the
/// same value, which then joins alike with any relation on either side.
pub proof fn construction_is_idempotent(
    names: Seq<Seq<char>>,
    rows: Seq<Seq<i64>>,
    x: RelationView,
    y: RelationView,
    other: RelationView,
)
    requires
        x == (RelationView { cols: names, rows }),
        y == (RelationView { cols: names, rows }),
    ensures
        x == y,
        join_view(x, other) == join_view(y, other),
        join_view(other, x) == join_view(other, y),
{
}

} // verus!
