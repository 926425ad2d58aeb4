use vstd::prelude::*;
use crate::relation::{RelationView, names_of, rows_of, rows_fit};

verus! {

/// Two rows agree on every column name that the left columns `a` and the
/// right columns `b` share.
pub open spec fn rows_match(a: Seq<Seq<char>>, b: Seq<Seq<char>>, l: Seq<i64>, s: Seq<i64>) -> bool {
    forall|i: int, j: int|
        #![trigger a[i], b[j]]
        0 <= i < a.len() && 0 <= j < b.len() && a[i] == b[j] ==> l[i] == s[j]
}

/// Positions of the right columns `b` whose name is not among the left
/// columns `a`, in increasing order.
pub open spec fn kept(a: Seq<Seq<char>>, b: Seq<Seq<char>>) -> Seq<int>
    decreases b.len(),
{
    if b.len() == 0 {
        Seq::empty()
    } else {
        let p = kept(a, b.drop_last());
        if a.contains(b.last()) {
            p
        } else {
            p.push(b.len() - 1)
        }
    }
}

/// The right columns that the left columns lack, in their order.
pub open spec fn extra_cols(a: Seq<Seq<char>>, b: Seq<Seq<char>>) -> Seq<Seq<char>> {
    kept(a, b).map_values(|j: int| b[j])
}

/// The values of a right row `s` under the right columns that the left lacks.
pub open spec fn extra_vals(a: Seq<Seq<char>>, b: Seq<Seq<char>>, s: Seq<i64>) -> Seq<i64> {
    kept(a, b).map_values(|j: int| s[j])
}

/// The output rows for one right row `s`: each left row of `ls` that agrees
/// with it, in order, followed by the values of `s` under the extra columns.
pub open spec fn matches_for(
    a: Seq<Seq<char>>,
    b: Seq<Seq<char>>,
    ls: Seq<Seq<i64>>,
    s: Seq<i64>,
) -> Seq<Seq<i64>>
    decreases ls.len(),
{
    if ls.len() == 0 {
        Seq::empty()
    } else {
        let p = matches_for(a, b, ls.drop_last(), s);
        if rows_match(a, b, ls.last(), s) {
            p.push(ls.last() + extra_vals(a, b, s))
        } else {
            p
        }
    }
}

/// The rows of the join: for each right row in order, its matches.
pub open spec fn join_rows(
    a: Seq<Seq<char>>,
    b: Seq<Seq<char>>,
    ls: Seq<Seq<i64>>,
    ss: Seq<Seq<i64>>,
) -> Seq<Seq<i64>>
    decreases ss.len(),
{
    if ss.len() == 0 {
        Seq::empty()
    } else {
        join_rows(a, b, ls, ss.drop_last()) + matches_for(a, b, ls, ss.last())
    }
}

/// The equi-join of two relations on the column names they share.
pub open spec fn join_view(l: RelationView, r: RelationView) -> RelationView {
    RelationView {
        cols: l.cols + extra_cols(l.cols, r.cols),
        rows: join_rows(l.cols, r.cols, l.rows, r.rows),
    }
}

/// Some name stands in both column lists.
pub open spec fn shares(a: Seq<Seq<char>>, b: Seq<Seq<char>>) -> bool {
    exists|i: int, j: int| 0 <= i < a.len() && 0 <= j < b.len() && #[trigger] a[i] == #[trigger] b[j]
}

/// `lk` and `rk` list, position by position, every pair of a left and a right
/// column that carry the same name.
pub open spec fn key_pairs(a: Seq<Seq<char>>, b: Seq<Seq<char>>, lk: Seq<usize>, rk: Seq<usize>) -> bool {
    &&& lk.len() == rk.len()
    &&& forall|t: int|
        0 <= t < lk.len() ==> #[trigger] lk[t] < a.len() && rk[t] < b.len() && a[lk[t] as int]
            == b[rk[t] as int]
    &&& forall|i: int, j: int|
        #![trigger a[i], b[j]]
        0 <= i < a.len() && 0 <= j < b.len() && a[i] == b[j] ==> has_pair(lk, rk, i, j)
}

/// Position `t` of `lk` and `rk` holds the pair `(i, j)`.
pub open spec fn has_pair(lk: Seq<usize>, rk: Seq<usize>, i: int, j: int) -> bool {
    exists|t: int| 0 <= t < lk.len() && #[trigger] lk[t] == i && rk[t] == j
}

proof fn lemma_has_pair_push(lk: Seq<usize>, rk: Seq<usize>, x: usize, y: usize, i: int, j: int)
    requires
        lk.len() == rk.len(),
        has_pair(lk, rk, i, j),
    ensures
        has_pair(lk.push(x), rk.push(y), i, j),
{
    let t = choose|t: int| 0 <= t < lk.len() && #[trigger] lk[t] == i && rk[t] == j;
    assert(lk.push(x)[t] == lk[t]);
    assert(rk.push(y)[t] == rk[t]);
}

/// Pushing `y` adds exactly `y` to what a sequence contains.
pub proof fn lemma_push_contains<A>(s: Seq<A>, x: A, y: A)
    ensures
        s.push(y).contains(x) == (s.contains(x) || x == y),
{
    if s.contains(x) {
        let t = choose|t: int| 0 <= t < s.len() && s[t] == x;
        assert(s.push(y)[t] == x);
    }
    if x == y {
        assert(s.push(y)[s.len() as int] == y);
    }
    if s.push(y).contains(x) && x != y {
        let t = choose|t: int| 0 <= t < s.push(y).len() && s.push(y)[t] == x;
        assert(s[t] == x);
    }
}

/// Dropping the last row keeps every row at the same width.
pub proof fn lemma_rows_fit_drop_last(rows: Seq<Seq<i64>>, width: int)
    requires
        rows_fit(rows, width),
        rows.len() > 0,
    ensures
        rows_fit(rows.drop_last(), width),
{
    assert forall|i: int| 0 <= i < rows.drop_last().len() implies #[trigger] rows.drop_last()[i].len()
        == width by {
        assert(rows.drop_last()[i] == rows[i]);
    }
}

/// Bounds, order and membership of the kept positions.
pub proof fn lemma_kept(a: Seq<Seq<char>>, b: Seq<Seq<char>>)
    ensures
        forall|t: int|
            0 <= t < kept(a, b).len() ==> 0 <= #[trigger] kept(a, b)[t] < b.len() && !a.contains(
                b[kept(a, b)[t]],
            ),
        forall|t: int, u: int| 0 <= t < u < kept(a, b).len() ==> kept(a, b)[t] < kept(a, b)[u],
        forall|j: int| 0 <= j < b.len() && !a.contains(b[j]) ==> kept(a, b).contains(j),
    decreases b.len(),
{
    if b.len() > 0 {
        let d = b.drop_last();
        lemma_kept(a, d);
        let p = kept(a, d);
        assert forall|j: int| 0 <= j < b.len() && !a.contains(b[j]) implies kept(a, b).contains(j) by {
            if j < b.len() - 1 {
                assert(d[j] == b[j]);
                assert(!a.contains(d[j]));
                assert(p.contains(j));
                let t = choose|t: int| 0 <= t < p.len() && p[t] == j;
                if !a.contains(b.last()) {
                    assert(p.push(b.len() - 1)[t] == j);
                }
            } else {
                assert(p.push(b.len() - 1)[p.len() as int] == j);
            }
        }
        assert forall|t: int| 0 <= t < kept(a, b).len() implies 0 <= #[trigger] kept(a, b)[t] < b.len()
            && !a.contains(b[kept(a, b)[t]]) by {
            if t < p.len() {
                assert(d[p[t]] == b[p[t]]);
            }
        }
    }
}

/// The name `c` is among `a`.
pub(crate) fn name_in(a: &Vec<String>, c: &String) -> (r: bool)
    ensures
        r == names_of(a@).contains(c@),
{
    let mut i: usize = 0;
    while i < a.len()
        invariant
            i <= a.len(),
            forall|k: int| 0 <= k < i ==> (#[trigger] a@[k])@ != c@,
        decreases a.len() - i,
    {
        if a[i] == *c {
            assert(names_of(a@)[i as int] == c@);
            return true;
        }
        i = i + 1;
    }
    assert forall|k: int| 0 <= k < names_of(a@).len() implies names_of(a@)[k] != c@ by {
        assert(names_of(a@)[k] == a@[k]@);
    }
    false
}

/// Some name stands in both `a` and `b`.
pub(crate) fn shares_name(a: &Vec<String>, b: &Vec<String>) -> (r: bool)
    ensures
        r == shares(names_of(a@), names_of(b@)),
{
    let ghost an = names_of(a@);
    let ghost bn = names_of(b@);
    let mut j: usize = 0;
    while j < b.len()
        invariant
            j <= b.len(),
            an == names_of(a@),
            bn == names_of(b@),
            forall|k: int| 0 <= k < j ==> !an.contains(#[trigger] bn[k]),
        decreases b.len() - j,
    {
        if name_in(a, &b[j]) {
            let ghost i = choose|i: int| 0 <= i < an.len() && an[i] == bn[j as int];
            assert(an[i] == bn[j as int]);
            return true;
        }
        j = j + 1;
    }
    assert forall|i: int, k: int| 0 <= i < an.len() && 0 <= k < bn.len() implies an[i] != bn[k] by {
        if an[i] == bn[k] {
            assert(an.contains(bn[k]));
        }
    }
    false
}

/// The positions of the right columns whose names the left lacks.
fn kept_positions(a: &Vec<String>, b: &Vec<String>) -> (r: Vec<usize>)
    ensures
        r@.len() == kept(names_of(a@), names_of(b@)).len(),
        forall|t: int| 0 <= t < r@.len() ==> r@[t] as int == kept(names_of(a@), names_of(b@))[t],
{
    let ghost an = names_of(a@);
    let ghost bn = names_of(b@);
    let mut r: Vec<usize> = Vec::new();
    let mut j: usize = 0;
    while j < b.len()
        invariant
            j <= b.len(),
            an == names_of(a@),
            bn == names_of(b@),
            r@.len() == kept(an, bn.take(j as int)).len(),
            forall|t: int| 0 <= t < r@.len() ==> r@[t] as int == kept(an, bn.take(j as int))[t],
        decreases b.len() - j,
    {
        let inside = name_in(a, &b[j]);
        let ghost next = bn.take(j + 1);
        assert(next.drop_last() =~= bn.take(j as int));
        assert(next.last() == bn[j as int]);
        if !inside {
            r.push(j);
        }
        j = j + 1;
    }
    assert(bn.take(b@.len() as int) =~= bn);
    r
}

/// Every pair of a left and a right column that carry the same name, as two
/// lists of positions.
fn key_positions(a: &Vec<String>, b: &Vec<String>) -> (r: (Vec<usize>, Vec<usize>))
    ensures
        key_pairs(names_of(a@), names_of(b@), r.0@, r.1@),
{
    let ghost an = names_of(a@);
    let ghost bn = names_of(b@);
    let mut lk: Vec<usize> = Vec::new();
    let mut rk: Vec<usize> = Vec::new();
    let mut i: usize = 0;
    while i < a.len()
        invariant
            i <= a.len(),
            an == names_of(a@),
            bn == names_of(b@),
            lk@.len() == rk@.len(),
            forall|t: int|
                0 <= t < lk@.len() ==> #[trigger] lk@[t] < an.len() && rk@[t] < bn.len()
                    && an[lk@[t] as int] == bn[rk@[t] as int],
            forall|x: int, y: int|
                #![trigger an[x], bn[y]]
                0 <= x < i && 0 <= y < bn.len() && an[x] == bn[y] ==> has_pair(lk@, rk@, x, y),
        decreases a.len() - i,
    {
        let mut j: usize = 0;
        while j < b.len()
            invariant
                i < a.len(),
                j <= b.len(),
                an == names_of(a@),
                bn == names_of(b@),
                lk@.len() == rk@.len(),
                forall|t: int|
                    0 <= t < lk@.len() ==> #[trigger] lk@[t] < an.len() && rk@[t] < bn.len()
                        && an[lk@[t] as int] == bn[rk@[t] as int],
                forall|x: int, y: int|
                    #![trigger an[x], bn[y]]
                    0 <= x < an.len() && 0 <= y < bn.len() && an[x] == bn[y] && (x < i || (x == i
                        && y < j)) ==> has_pair(lk@, rk@, x, y),
            decreases b.len() - j,
        {
            if a[i] == b[j] {
                let ghost (olk, ork) = (lk@, rk@);
                assert(an[i as int] == a@[i as int]@ && bn[j as int] == b@[j as int]@);
                lk.push(i);
                rk.push(j);
                assert forall|t: int| 0 <= t < lk@.len() implies #[trigger] lk@[t] < an.len()
                    && rk@[t] < bn.len() && an[lk@[t] as int] == bn[rk@[t] as int] by {
                    if t < olk.len() {
                        assert(lk@[t] == olk[t] && rk@[t] == ork[t]);
                    }
                }
                assert forall|x: int, y: int|
                    #![trigger an[x], bn[y]]
                    0 <= x < an.len() && 0 <= y < bn.len() && an[x] == bn[y] && (x < i || (x == i
                        && y < j + 1)) implies has_pair(lk@, rk@, x, y) by {
                    if x == i && y == j {
                        assert(lk@[olk.len() as int] == i);
                    } else {
                        lemma_has_pair_push(olk, ork, i, j, x, y);
                    }
                }
            }
            j = j + 1;
        }
        i = i + 1;
    }
    (lk, rk)
}

/// The row values at `lk` equal those of `s` at `rk`, position by position.
fn keys_agree(l: &Vec<i64>, s: &Vec<i64>, lk: &Vec<usize>, rk: &Vec<usize>) -> (r: bool)
    requires
        lk@.len() == rk@.len(),
        forall|t: int| 0 <= t < lk@.len() ==> #[trigger] lk@[t] < l@.len() && rk@[t] < s@.len(),
    ensures
        r == forall|t: int|
            0 <= t < lk@.len() ==> l@[#[trigger] lk@[t] as int] == s@[rk@[t] as int],
{
    let mut t: usize = 0;
    while t < lk.len()
        invariant
            t <= lk@.len(),
            lk@.len() == rk@.len(),
            forall|u: int| 0 <= u < lk@.len() ==> #[trigger] lk@[u] < l@.len() && rk@[u] < s@.len(),
            forall|u: int| 0 <= u < t ==> l@[#[trigger] lk@[u] as int] == s@[rk@[u] as int],
        decreases lk@.len() - t,
    {
        if l[lk[t]] != s[rk[t]] {
            return false;
        }
        t = t + 1;
    }
    true
}

/// Comparing at the key positions decides whether two rows match.
proof fn lemma_keys_decide(
    a: Seq<Seq<char>>,
    b: Seq<Seq<char>>,
    lk: Seq<usize>,
    rk: Seq<usize>,
    l: Seq<i64>,
    s: Seq<i64>,
)
    requires
        key_pairs(a, b, lk, rk),
        l.len() == a.len(),
        s.len() == b.len(),
    ensures
        (forall|t: int| 0 <= t < lk.len() ==> l[#[trigger] lk[t] as int] == s[rk[t] as int])
            == rows_match(a, b, l, s),
{
    if forall|t: int| 0 <= t < lk.len() ==> l[#[trigger] lk[t] as int] == s[rk[t] as int] {
        assert forall|i: int, j: int|
            #![trigger a[i], b[j]]
            0 <= i < a.len() && 0 <= j < b.len() && a[i] == b[j] implies l[i] == s[j] by {
            assert(has_pair(lk, rk, i, j));
            let t = choose|t: int| 0 <= t < lk.len() && #[trigger] lk[t] == i && rk[t] == j;
        }
    }
    if rows_match(a, b, l, s) {
        assert forall|t: int| 0 <= t < lk.len() implies l[#[trigger] lk[t] as int] == s[rk[t] as int] by {
            let i = lk[t] as int;
            let j = rk[t] as int;
            assert(a[i] == b[j]);
        }
    }
}

/// Every joined row is as wide as the left columns plus the extra columns.
pub proof fn lemma_join_rows_fit(a: Seq<Seq<char>>, b: Seq<Seq<char>>, ls: Seq<Seq<i64>>, ss: Seq<Seq<i64>>)
    requires
        rows_fit(ls, a.len() as int),
    ensures
        rows_fit(join_rows(a, b, ls, ss), (a.len() + kept(a, b).len()) as int),
    decreases ss.len(),
{
    if ss.len() > 0 {
        lemma_join_rows_fit(a, b, ls, ss.drop_last());
        lemma_matches_for_fit(a, b, ls, ss.last());
    }
}

proof fn lemma_matches_for_fit(a: Seq<Seq<char>>, b: Seq<Seq<char>>, ls: Seq<Seq<i64>>, s: Seq<i64>)
    requires
        rows_fit(ls, a.len() as int),
    ensures
        rows_fit(matches_for(a, b, ls, s), (a.len() + kept(a, b).len()) as int),
    decreases ls.len(),
{
    if ls.len() > 0 {
        lemma_rows_fit_drop_last(ls, a.len() as int);
        lemma_matches_for_fit(a, b, ls.drop_last(), s);
        assert(ls.last() == ls[ls.len() - 1]);
    }
}

/// The joined column names: the left ones, then the right ones that the left
/// lacks.
pub(crate) fn join_cols(a: &Vec<String>, b: &Vec<String>) -> (r: Vec<String>)
    ensures
        names_of(r@) == names_of(a@) + extra_cols(names_of(a@), names_of(b@)),
{
    let ghost an = names_of(a@);
    let ghost bn = names_of(b@);
    let kept_pos = kept_positions(a, b);
    proof {
        lemma_kept(an, bn);
    }
    let mut r: Vec<String> = Vec::new();
    let mut i: usize = 0;
    while i < a.len()
        invariant
            i <= a.len(),
            an == names_of(a@),
            names_of(r@) == an.take(i as int),
        decreases a.len() - i,
    {
        let ghost before = r@;
        r.push(a[i].clone());
        assert(names_of(r@) =~= an.take(i + 1)) by {
            assert(names_of(r@) =~= names_of(before).push(a@[i as int]@));
        }
        i = i + 1;
    }
    assert(an.take(a@.len() as int) =~= an);
    let ghost extra = extra_cols(an, bn);
    let mut t: usize = 0;
    while t < kept_pos.len()
        invariant
            t <= kept_pos@.len(),
            an == names_of(a@),
            bn == names_of(b@),
            extra == extra_cols(an, bn),
            kept_pos@.len() == kept(an, bn).len(),
            forall|u: int| 0 <= u < kept_pos@.len() ==> kept_pos@[u] as int == kept(an, bn)[u],
            forall|u: int| 0 <= u < kept(an, bn).len() ==> 0 <= #[trigger] kept(an, bn)[u] < bn.len(),
            names_of(r@) == an + extra.take(t as int),
        decreases kept_pos@.len() - t,
    {
        let ghost before = r@;
        let j = kept_pos[t];
        assert(kept(an, bn)[t as int] == j);
        r.push(b[j].clone());
        assert(names_of(r@) =~= an + extra.take(t + 1)) by {
            assert(names_of(r@) =~= names_of(before).push(b@[j as int]@));
            assert(extra[t as int] == bn[j as int]);
        }
        t = t + 1;
    }
    assert(extra.take(kept_pos@.len() as int) =~= extra);
    r
}

/// `l` followed by the values of `s` at the positions `kept_pos`.
fn joined_row(l: &Vec<i64>, s: &Vec<i64>, kept_pos: &Vec<usize>) -> (r: Vec<i64>)
    requires
        forall|t: int| 0 <= t < kept_pos@.len() ==> #[trigger] kept_pos@[t] < s@.len(),
    ensures
        r@ == l@ + kept_pos@.map_values(|k: usize| s@[k as int]),
{
    let mut r: Vec<i64> = Vec::new();
    let mut i: usize = 0;
    while i < l.len()
        invariant
            i <= l@.len(),
            r@ == l@.take(i as int),
        decreases l@.len() - i,
    {
        r.push(l[i]);
        assert(r@ =~= l@.take(i + 1));
        i = i + 1;
    }
    assert(l@.take(l@.len() as int) =~= l@);
    let ghost tail = kept_pos@.map_values(|k: usize| s@[k as int]);
    let mut t: usize = 0;
    while t < kept_pos.len()
        invariant
            t <= kept_pos@.len(),
            tail == kept_pos@.map_values(|k: usize| s@[k as int]),
            forall|u: int| 0 <= u < kept_pos@.len() ==> #[trigger] kept_pos@[u] < s@.len(),
            r@ == l@ + tail.take(t as int),
        decreases kept_pos@.len() - t,
    {
        r.push(s[kept_pos[t]]);
        assert(r@ =~= l@ + tail.take(t + 1));
        t = t + 1;
    }
    assert(tail.take(kept_pos@.len() as int) =~= tail);
    r
}

/// The joined rows: for each right row in order, each agreeing left row in
/// order, followed by the right row's values under the extra columns.
///
/// The shared names are resolved once to pairs of positions. For each right
/// row, every left row is then compared with it at those positions, so the
/// work grows with the product of the two row counts.
pub(crate) fn join_data(
    a: &Vec<String>,
    b: &Vec<String>,
    ldata: &Vec<Vec<i64>>,
    rdata: &Vec<Vec<i64>>,
) -> (r: Vec<Vec<i64>>)
    requires
        rows_fit(rows_of(ldata@), a@.len() as int),
        rows_fit(rows_of(rdata@), b@.len() as int),
    ensures
        rows_of(r@) == join_rows(names_of(a@), names_of(b@), rows_of(ldata@), rows_of(rdata@)),
{
    let ghost an = names_of(a@);
    let ghost bn = names_of(b@);
    let ghost ls = rows_of(ldata@);
    let ghost ss = rows_of(rdata@);
    let (lk, rk) = key_positions(a, b);
    let kept_pos = kept_positions(a, b);
    proof {
        lemma_kept(an, bn);
    }
    let mut out: Vec<Vec<i64>> = Vec::new();
    let mut j: usize = 0;
    while j < rdata.len()
        invariant
            j <= rdata@.len(),
            an == names_of(a@),
            bn == names_of(b@),
            ls == rows_of(ldata@),
            ss == rows_of(rdata@),
            rows_fit(ls, an.len() as int),
            rows_fit(ss, bn.len() as int),
            key_pairs(an, bn, lk@, rk@),
            kept_pos@.len() == kept(an, bn).len(),
            forall|u: int| 0 <= u < kept_pos@.len() ==> kept_pos@[u] as int == kept(an, bn)[u],
            forall|u: int| 0 <= u < kept(an, bn).len() ==> 0 <= #[trigger] kept(an, bn)[u] < bn.len(),
            rows_of(out@) == join_rows(an, bn, ls, ss.take(j as int)),
        decreases rdata@.len() - j,
    {
        let s = &rdata[j];
        assert(ss[j as int] == s@);
        assert(s@.len() == bn.len());
        let mut i: usize = 0;
        while i < ldata.len()
            invariant
                i <= ldata@.len(),
                j < rdata@.len(),
                s@ == ss[j as int],
                s@.len() == bn.len(),
                an == names_of(a@),
                bn == names_of(b@),
                ls == rows_of(ldata@),
                rows_fit(ls, an.len() as int),
                key_pairs(an, bn, lk@, rk@),
                kept_pos@.len() == kept(an, bn).len(),
                forall|u: int| 0 <= u < kept_pos@.len() ==> kept_pos@[u] as int == kept(an, bn)[u],
                forall|u: int| 0 <= u < kept(an, bn).len() ==> 0 <= #[trigger] kept(an, bn)[u] < bn.len(),
                rows_of(out@) == join_rows(an, bn, ls, ss.take(j as int)) + matches_for(
                    an,
                    bn,
                    ls.take(i as int),
                    s@,
                ),
            decreases ldata@.len() - i,
        {
            let l = &ldata[i];
            assert(ls[i as int] == l@);
            assert(l@.len() == an.len());
            let ok = keys_agree(l, s, &lk, &rk);
            proof {
                lemma_keys_decide(an, bn, lk@, rk@, l@, s@);
                let next = ls.take(i + 1);
                assert(next.drop_last() =~= ls.take(i as int));
                assert(next.last() == l@);
            }
            if ok {
                let row = joined_row(l, s, &kept_pos);
                let ghost before = out@;
                assert(row@ =~= l@ + extra_vals(an, bn, s@));
                out.push(row);
                assert(rows_of(out@) =~= rows_of(before).push(row@));
            }
            i = i + 1;
        }
        proof {
            assert(ls.take(ldata@.len() as int) =~= ls);
            let next = ss.take(j + 1);
            assert(next.drop_last() =~= ss.take(j as int));
            assert(next.last() == s@);
        }
        j = j + 1;
    }
    assert(ss.take(rdata@.len() as int) =~= ss);
    out
}

} // verus!
