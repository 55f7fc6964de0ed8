//! The frequency table: rows grouped first by values and weight, then by
//! values alone, and ordered by their values.

use vstd::prelude::*;

verus! {

use crate::extract::strings_view;

/// Rows that share both their values and their weight.
#[derive(Debug, Clone)]
pub struct WeightGroup {
    pub values: Vec<String>,
    pub weight: u64,
    pub count: usize,
}

/// One line of the frequency table: the values, their summed weight, and the
/// divisor and decimal scale that the frequency
/// `total / (divisor * 10^scale)` is read with.
#[derive(Debug, Clone, PartialEq, Eq)]
pub struct FreqRow {
    pub values: Vec<String>,
    pub total: u128,
    pub divisor: i16,
    pub scale: usize,
}

/// Extracted rows as values tuples and weights.
pub open spec fn rows_view(rows: Seq<(Vec<String>, u64)>) -> Seq<(Seq<Seq<char>>, nat)> {
    Seq::new(rows.len(), |i: int| (strings_view(rows[i].0@), rows[i].1 as nat))
}

/// The sum of the weights of the rows whose values are `key`.
pub open spec fn weighted_total(rows: Seq<(Seq<Seq<char>>, nat)>, key: Seq<Seq<char>>) -> nat
    decreases rows.len(),
{
    if rows.len() == 0 {
        0
    } else {
        weighted_total(rows.drop_last(), key) + if rows.last().0 == key {
            rows.last().1
        } else {
            0
        }
    }
}

/// How many rows have values `key` and weight `w`.
pub open spec fn row_count(rows: Seq<(Seq<Seq<char>>, nat)>, key: Seq<Seq<char>>, w: nat) -> nat
    decreases rows.len(),
{
    if rows.len() == 0 {
        0
    } else {
        row_count(rows.drop_last(), key, w) + if rows.last().0 == key && rows.last().1 == w {
            1nat
        } else {
            0
        }
    }
}

/// Weight groups as values tuples, weights and counts.
pub open spec fn groups_view(g: Seq<WeightGroup>) -> Seq<(Seq<Seq<char>>, nat, nat)> {
    Seq::new(g.len(), |i: int| (strings_view(g[i].values@), g[i].weight as nat, g[i].count as nat))
}

/// What one weight group adds to the frequency of `key`.
pub open spec fn contribution(e: (Seq<Seq<char>>, nat, nat), key: Seq<Seq<char>>) -> nat {
    if e.0 == key {
        e.1 * e.2
    } else {
        0
    }
}

/// The sum of weight times count over the groups whose values are `key`.
pub open spec fn group_sum(g: Seq<(Seq<Seq<char>>, nat, nat)>, key: Seq<Seq<char>>) -> nat
    decreases g.len(),
{
    if g.len() == 0 {
        0
    } else {
        group_sum(g.drop_last(), key) + contribution(g.last(), key)
    }
}

/// Every row has a group with its values and weight.
pub open spec fn groups_cover(
    g: Seq<(Seq<Seq<char>>, nat, nat)>,
    rows: Seq<(Seq<Seq<char>>, nat)>,
) -> bool {
    forall|r: int|
        0 <= r < rows.len() ==> exists|a: int|
            0 <= a < g.len() && (#[trigger] g[a]).0 == (#[trigger] rows[r]).0 && g[a].1 == rows[r].1
}

proof fn lemma_row_count_witness(rows: Seq<(Seq<Seq<char>>, nat)>, key: Seq<Seq<char>>, w: nat) -> (r: int)
    requires
        row_count(rows, key, w) > 0,
    ensures
        0 <= r < rows.len(),
        rows[r].0 == key,
        rows[r].1 == w,
    decreases rows.len(),
{
    if rows.last().0 == key && rows.last().1 == w {
        rows.len() - 1
    } else {
        let r = lemma_row_count_witness(rows.drop_last(), key, w);
        assert(rows.drop_last()[r] == rows[r]);
        r
    }
}

/// No two groups share both values and weight.
pub open spec fn groups_distinct(g: Seq<(Seq<Seq<char>>, nat, nat)>) -> bool {
    forall|a: int, b: int|
        0 <= a < g.len() && 0 <= b < g.len() && a != b ==> !(#[trigger] g[a].0 == #[trigger] g[b].0
            && g[a].1 == g[b].1)
}

proof fn lemma_group_sum_update(
    g: Seq<(Seq<Seq<char>>, nat, nat)>,
    a: int,
    e: (Seq<Seq<char>>, nat, nat),
    key: Seq<Seq<char>>,
)
    requires
        0 <= a < g.len(),
    ensures
        group_sum(g.update(a, e), key) + contribution(g[a], key) == group_sum(g, key)
            + contribution(e, key),
    decreases g.len(),
{
    if a == g.len() - 1 {
        assert(g.update(a, e).drop_last() =~= g.drop_last());
    } else {
        assert(g.update(a, e).drop_last() =~= g.drop_last().update(a, e));
        lemma_group_sum_update(g.drop_last(), a, e, key);
    }
}

proof fn lemma_group_sum_prefix_le(g: Seq<(Seq<Seq<char>>, nat, nat)>, j: int, key: Seq<Seq<char>>)
    requires
        0 <= j <= g.len(),
    ensures
        group_sum(g.subrange(0, j), key) <= group_sum(g, key),
    decreases g.len() - j,
{
    if j < g.len() {
        lemma_group_sum_prefix_le(g, j + 1, key);
        assert(g.subrange(0, j + 1).drop_last() =~= g.subrange(0, j));
    } else {
        assert(g.subrange(0, j) =~= g);
    }
}

proof fn lemma_weighted_total_bound(rows: Seq<(Seq<Seq<char>>, nat)>, key: Seq<Seq<char>>)
    requires
        forall|i: int| 0 <= i < rows.len() ==> #[trigger] rows[i].1 <= u64::MAX,
    ensures
        weighted_total(rows, key) <= rows.len() * (u64::MAX as nat),
    decreases rows.len(),
{
    if rows.len() > 0 {
        lemma_weighted_total_bound(rows.drop_last(), key);
        assert(rows.last().1 <= u64::MAX);
        assert((rows.len() - 1) * (u64::MAX as nat) + u64::MAX == rows.len() * (u64::MAX as nat))
            by (nonlinear_arith);
    }
}

/// Whether two values tuples hold the same texts.
pub fn same_values(a: &Vec<String>, b: &Vec<String>) -> (r: bool)
    ensures
        r == (strings_view(a@) == strings_view(b@)),
{
    if a.len() != b.len() {
        assert(strings_view(a@).len() != strings_view(b@).len());
        return false;
    }
    let mut i: usize = 0;
    while i < a.len()
        invariant
            i <= a@.len(),
            a@.len() == b@.len(),
            forall|k: int| 0 <= k < i ==> #[trigger] a@[k]@ == b@[k]@,
        decreases a@.len() - i,
    {
        if a[i] != b[i] {
            assert(strings_view(a@)[i as int] != strings_view(b@)[i as int]);
            return false;
        }
        i = i + 1;
    }
    assert(strings_view(a@) =~= strings_view(b@));
    true
}

/// A copy of a values tuple.
pub fn copy_values(v: &Vec<String>) -> (r: Vec<String>)
    ensures
        r@ == v@,
{
    let mut r: Vec<String> = Vec::new();
    let mut i: usize = 0;
    while i < v.len()
        invariant
            i <= v@.len(),
            r@ == v@.subrange(0, i as int),
        decreases v@.len() - i,
    {
        r.push(v[i].clone());
        assert(r@ =~= v@.subrange(0, i + 1));
        i = i + 1;
    }
    assert(v@.subrange(0, i as int) =~= v@);
    r
}

/// First stage: groups the rows by values and weight, counting each group.
pub fn group_by_weight(rows: &Vec<(Vec<String>, u64)>) -> (g: Vec<WeightGroup>)
    ensures
        groups_distinct(groups_view(g@)),
        forall|a: int|
            0 <= a < g@.len() ==> (#[trigger] groups_view(g@)[a]).2 == row_count(
                rows_view(rows@),
                groups_view(g@)[a].0,
                groups_view(g@)[a].1,
            ) && groups_view(g@)[a].2 >= 1,
        groups_cover(groups_view(g@), rows_view(rows@)),
        forall|key: Seq<Seq<char>>|
            #[trigger] group_sum(groups_view(g@), key) == weighted_total(rows_view(rows@), key),
{
    let ghost rv = rows_view(rows@);
    let mut g: Vec<WeightGroup> = Vec::new();
    let mut i: usize = 0;
    while i < rows.len()
        invariant
            i <= rows@.len(),
            rv == rows_view(rows@),
            groups_distinct(groups_view(g@)),
            forall|a: int|
                0 <= a < g@.len() ==> (#[trigger] groups_view(g@)[a]).2 == row_count(
                    rv.subrange(0, i as int),
                    groups_view(g@)[a].0,
                    groups_view(g@)[a].1,
                ) && 1 <= g@[a].count <= i,
            groups_cover(groups_view(g@), rv.subrange(0, i as int)),
            forall|key: Seq<Seq<char>>|
                #[trigger] group_sum(groups_view(g@), key) == weighted_total(
                    rv.subrange(0, i as int),
                    key,
                ),
        decreases rows@.len() - i,
    {
        let ghost old_gv = groups_view(g@);
        let ghost pre = rv.subrange(0, i as int);
        let ghost post = rv.subrange(0, i + 1);
        assert(post.drop_last() =~= pre);
        assert(post.last() == rv[i as int]);
        let values = &rows[i].0;
        let weight = rows[i].1;
        let mut a: usize = 0;
        let mut found = false;
        while a < g.len()
            invariant_except_break
                !found,
            invariant
                a <= g@.len(),
                forall|b: int|
                    0 <= b < a ==> !((#[trigger] groups_view(g@)[b]).0 == rv[i as int].0
                        && groups_view(g@)[b].1 == rv[i as int].1),
                rv == rows_view(rows@),
                i < rows@.len(),
                values == rows@[i as int].0,
                weight == rows@[i as int].1,
            ensures
                found ==> a < g@.len() && groups_view(g@)[a as int].0 == rv[i as int].0
                    && groups_view(g@)[a as int].1 == rv[i as int].1,
                !found ==> a == g@.len(),
            decreases g@.len() - a,
        {
            if g[a].weight == weight && same_values(&g[a].values, values) {
                found = true;
                break;
            }
            a = a + 1;
        }
        if found {
            let c = g[a].count;
            let ghost e = (old_gv[a as int].0, old_gv[a as int].1, (c + 1) as nat);
            g.set(a, WeightGroup { values: copy_values(values), weight, count: c + 1 });
            assert(groups_view(g@) =~= old_gv.update(a as int, e));
            assert forall|b: int| 0 <= b < g@.len() implies #[trigger] groups_view(g@)[b].0
                == old_gv[b].0 && groups_view(g@)[b].1 == old_gv[b].1 by {}
            assert forall|b: int| 0 <= b < g@.len() implies (#[trigger] groups_view(g@)[b]).2
                == row_count(post, groups_view(g@)[b].0, groups_view(g@)[b].1) && 1 <= g@[b].count
                <= i + 1 by {
                if b != a {
                    assert(!(old_gv[b].0 == old_gv[a as int].0 && old_gv[b].1 == old_gv[a as int].1));
                }
            }
            assert forall|key: Seq<Seq<char>>|
                #[trigger] group_sum(groups_view(g@), key) == weighted_total(post, key) by {
                lemma_group_sum_update(old_gv, a as int, e, key);
                assert(e.1 * e.2 == e.1 * old_gv[a as int].2 + e.1) by (nonlinear_arith)
                    requires
                        e.2 == old_gv[a as int].2 + 1,
                ;
            }
            assert forall|r: int| 0 <= r < i + 1 implies exists|b: int|
                0 <= b < g@.len() && (#[trigger] groups_view(g@)[b]).0 == (#[trigger] post[r]).0
                    && groups_view(g@)[b].1 == post[r].1 by {
                assert(post[r] == rv[r]);
                if r < i {
                    assert(pre[r] == rv[r]);
                    let b = choose|b: int|
                        0 <= b < old_gv.len() && (#[trigger] old_gv[b]).0 == pre[r].0
                            && old_gv[b].1 == pre[r].1;
                    assert(groups_view(g@)[b].0 == old_gv[b].0);
                } else {
                    assert(groups_view(g@)[a as int].0 == rv[r].0);
                }
            }
        } else {
            let ghost e = (rv[i as int].0, rv[i as int].1, 1nat);
            g.push(WeightGroup { values: copy_values(values), weight, count: 1 });
            assert(groups_view(g@) =~= old_gv.push(e));
            assert(groups_view(g@).drop_last() =~= old_gv);
            assert(groups_view(g@).last() == e);
            assert forall|key: Seq<Seq<char>>|
                #[trigger] group_sum(groups_view(g@), key) == weighted_total(post, key) by {
                assert(e.1 * 1 == e.1);
                assert(group_sum(groups_view(g@), key) == group_sum(old_gv, key) + contribution(
                    e,
                    key,
                ));
            }
            assert forall|b: int| 0 <= b < g@.len() implies (#[trigger] groups_view(g@)[b]).2
                == row_count(post, groups_view(g@)[b].0, groups_view(g@)[b].1) && 1 <= g@[b].count
                <= i + 1 by {
                if b < old_gv.len() {
                    assert(groups_view(g@)[b] == old_gv[b]);
                    assert(!(old_gv[b].0 == rv[i as int].0 && old_gv[b].1 == rv[i as int].1));
                } else {
                    if row_count(pre, e.0, e.1) > 0 {
                        let r = lemma_row_count_witness(pre, e.0, e.1);
                        assert(pre[r] == rv[r]);
                    }
                }
            }
            assert forall|r: int| 0 <= r < i + 1 implies exists|b: int|
                0 <= b < g@.len() && (#[trigger] groups_view(g@)[b]).0 == (#[trigger] post[r]).0
                    && groups_view(g@)[b].1 == post[r].1 by {
                assert(post[r] == rv[r]);
                if r < i {
                    assert(pre[r] == rv[r]);
                    let b = choose|b: int|
                        0 <= b < old_gv.len() && (#[trigger] old_gv[b]).0 == pre[r].0
                            && old_gv[b].1 == pre[r].1;
                    assert(groups_view(g@)[b].0 == old_gv[b].0);
                } else {
                    assert(groups_view(g@)[old_gv.len() as int].0 == rv[r].0);
                }
            }
        }
        i = i + 1;
    }
    assert(rv.subrange(0, i as int) =~= rv);
    g
}

/// Frequency rows as values tuples and totals.
pub open spec fn freq_view(t: Seq<FreqRow>) -> Seq<(Seq<Seq<char>>, nat)> {
    Seq::new(t.len(), |i: int| (strings_view(t[i].values@), t[i].total as nat))
}

/// No two frequency rows share their values.
pub open spec fn keys_distinct(t: Seq<(Seq<Seq<char>>, nat)>) -> bool {
    forall|a: int, b: int|
        0 <= a < t.len() && 0 <= b < t.len() && a != b ==> (#[trigger] t[a]).0 != (#[trigger] t[b]).0
}

/// Every group's values have a frequency row.
pub open spec fn covers_keys(t: Seq<(Seq<Seq<char>>, nat)>, g: Seq<(Seq<Seq<char>>, nat, nat)>) -> bool {
    forall|a: int|
        0 <= a < g.len() ==> exists|k: int| 0 <= k < t.len() && (#[trigger] t[k]).0 == (#[trigger] g[a]).0
}

/// Every frequency row's values belong to some group.
pub open spec fn keys_from(t: Seq<(Seq<Seq<char>>, nat)>, g: Seq<(Seq<Seq<char>>, nat, nat)>) -> bool {
    forall|k: int|
        0 <= k < t.len() ==> exists|a: int| 0 <= a < g.len() && (#[trigger] t[k]).0 == (#[trigger] g[a]).0
}

/// Every frequency row holds the group sum of its values.
pub open spec fn totals_match(t: Seq<(Seq<Seq<char>>, nat)>, g: Seq<(Seq<Seq<char>>, nat, nat)>) -> bool {
    forall|k: int| 0 <= k < t.len() ==> (#[trigger] t[k]).1 == group_sum(g, t[k].0)
}

/// The second stage so far: distinct keys, exact totals, and the same keys as the groups.
pub open spec fn sums_of(t: Seq<(Seq<Seq<char>>, nat)>, g: Seq<(Seq<Seq<char>>, nat, nat)>) -> bool {
    keys_distinct(t) && totals_match(t, g) && covers_keys(t, g) && keys_from(t, g)
}

proof fn lemma_sum_step(
    old_t: Seq<(Seq<Seq<char>>, nat)>,
    new_t: Seq<(Seq<Seq<char>>, nat)>,
    g: Seq<(Seq<Seq<char>>, nat, nat)>,
    e: (Seq<Seq<char>>, nat, nat),
    k: int,
)
    requires
        sums_of(old_t, g),
        (0 <= k < old_t.len() && old_t[k].0 == e.0 && new_t == old_t.update(
            k,
            (e.0, old_t[k].1 + e.1 * e.2),
        )) || (k == old_t.len() && (forall|b: int| 0 <= b < old_t.len() ==> (#[trigger] old_t[b]).0 != e.0)
            && new_t == old_t.push((e.0, e.1 * e.2))),
    ensures
        sums_of(new_t, g.push(e)),
{
    let post = g.push(e);
    assert(post.drop_last() =~= g);
    if k == old_t.len() && group_sum(g, e.0) > 0 {
        let a = lemma_group_sum_witness(g, e.0);
        let b = choose|b: int| 0 <= b < old_t.len() && (#[trigger] old_t[b]).0 == (#[trigger] g[a]).0;
        assert(old_t[b].0 != e.0);
    }
    assert forall|b: int| 0 <= b < new_t.len() implies (#[trigger] new_t[b]).1 == group_sum(
        post,
        new_t[b].0,
    ) by {
        if b != k {
            assert(new_t[b] == old_t[b]);
            assert(old_t[b].0 != e.0) by {
                if k < old_t.len() {
                    assert(old_t[b].0 != old_t[k].0);
                }
            }
        }
    }
    assert forall|a: int| 0 <= a < post.len() implies exists|b: int|
        0 <= b < new_t.len() && (#[trigger] new_t[b]).0 == (#[trigger] post[a]).0 by {
        if a < g.len() {
            assert(post[a] == g[a]);
            let b = choose|b: int| 0 <= b < old_t.len() && (#[trigger] old_t[b]).0 == (#[trigger] g[a]).0;
            assert(new_t[b].0 == old_t[b].0);
        } else {
            assert(new_t[k].0 == e.0);
        }
    }
    assert forall|b: int| 0 <= b < new_t.len() implies exists|a: int|
        0 <= a < post.len() && (#[trigger] new_t[b]).0 == (#[trigger] post[a]).0 by {
        if b != k {
            assert(new_t[b] == old_t[b]);
            let a = choose|a: int| 0 <= a < g.len() && (#[trigger] old_t[b]).0 == (#[trigger] g[a]).0;
            assert(post[a] == g[a]);
        } else {
            assert(post[g.len() as int] == e);
        }
    }
    assert forall|a: int, b: int|
        0 <= a < new_t.len() && 0 <= b < new_t.len() && a != b implies (#[trigger] new_t[a]).0
        != (#[trigger] new_t[b]).0 by {
        if a != k && b != k {
            assert(new_t[a] == old_t[a] && new_t[b] == old_t[b]);
        } else if a == k {
            assert(new_t[b] == old_t[b]);
        } else {
            assert(new_t[a] == old_t[a]);
        }
    }
}

/// Second stage: sums weight times count over the groups that share values.
pub fn sum_by_values(groups: &Vec<WeightGroup>, divisor: i16, scale: usize) -> (t: Vec<FreqRow>)
    requires
        forall|key: Seq<Seq<char>>| #[trigger] group_sum(groups_view(groups@), key) <= u128::MAX,
    ensures
        sums_of(freq_view(t@), groups_view(groups@)),
        forall|k: int| 0 <= k < t@.len() ==> (#[trigger] t@[k]).divisor == divisor && t@[k].scale == scale,
{
    let ghost gv = groups_view(groups@);
    let mut t: Vec<FreqRow> = Vec::new();
    let mut j: usize = 0;
    while j < groups.len()
        invariant
            j <= groups@.len(),
            gv == groups_view(groups@),
            forall|key: Seq<Seq<char>>| #[trigger] group_sum(gv, key) <= u128::MAX,
            sums_of(freq_view(t@), gv.subrange(0, j as int)),
            forall|k: int| 0 <= k < t@.len() ==> (#[trigger] t@[k]).divisor == divisor && t@[k].scale == scale,
        decreases groups@.len() - j,
    {
        let ghost old_tv = freq_view(t@);
        let ghost pre = gv.subrange(0, j as int);
        let ghost post = gv.subrange(0, j + 1);
        let ghost e = gv[j as int];
        assert(post =~= pre.push(e));
        let values = &groups[j].values;
        let w = groups[j].weight;
        let c = groups[j].count;
        let ghost key = e.0;
        proof {
            lemma_group_sum_prefix_le(gv, j + 1, key);
            assert(post.drop_last() =~= pre);
        }
        assert(group_sum(post, key) == group_sum(pre, key) + w as nat * c as nat);
        let add = (w as u128) * (c as u128);
        let mut k: usize = 0;
        let mut found = false;
        while k < t.len()
            invariant_except_break
                !found,
            invariant
                k <= t@.len(),
                old_tv == freq_view(t@),
                key == strings_view(values@),
                forall|b: int| 0 <= b < k ==> (#[trigger] old_tv[b]).0 != key,
            ensures
                found ==> k < t@.len() && old_tv[k as int].0 == key,
                !found ==> k == t@.len(),
            decreases t@.len() - k,
        {
            if same_values(&t[k].values, values) {
                found = true;
                break;
            }
            k = k + 1;
        }
        if found {
            assert(old_tv[k as int].1 == group_sum(pre, key));
            let total = t[k].total + add;
            t.set(k, FreqRow { values: copy_values(values), total, divisor, scale });
            assert(freq_view(t@) =~= old_tv.update(k as int, (e.0, old_tv[k as int].1 + e.1 * e.2)));
        } else {
            t.push(FreqRow { values: copy_values(values), total: add, divisor, scale });
            assert(freq_view(t@) =~= old_tv.push((e.0, e.1 * e.2)));
        }
        proof {
            lemma_sum_step(old_tv, freq_view(t@), pre, e, k as int);
        }
        j = j + 1;
    }
    assert(gv.subrange(0, j as int) =~= gv);
    t
}

proof fn lemma_group_sum_witness(g: Seq<(Seq<Seq<char>>, nat, nat)>, key: Seq<Seq<char>>) -> (a: int)
    requires
        group_sum(g, key) > 0,
    ensures
        0 <= a < g.len(),
        g[a].0 == key,
    decreases g.len(),
{
    if g.last().0 == key {
        g.len() - 1
    } else {
        let a = lemma_group_sum_witness(g.drop_last(), key);
        assert(g.drop_last()[a] == g[a]);
        a
    }
}

/// Some line of the table has values `key`.
pub open spec fn table_has(t: Seq<(Seq<Seq<char>>, nat)>, key: Seq<Seq<char>>) -> bool {
    exists|k: int| 0 <= k < t.len() && (#[trigger] t[k]).0 == key
}

/// Some row has values `key`.
pub open spec fn rows_have(rows: Seq<(Seq<Seq<char>>, nat)>, key: Seq<Seq<char>>) -> bool {
    exists|r: int| 0 <= r < rows.len() && (#[trigger] rows[r]).0 == key
}

/// `t` is the frequency table of `rows`: one line per distinct values tuple
/// of the rows, holding the summed weight of the rows with those values.
pub open spec fn frequency_table(t: Seq<(Seq<Seq<char>>, nat)>, rows: Seq<(Seq<Seq<char>>, nat)>) -> bool {
    &&& keys_distinct(t)
    &&& forall|k: int| 0 <= k < t.len() ==> (#[trigger] t[k]).1 == weighted_total(rows, t[k].0)
    &&& forall|r: int| 0 <= r < rows.len() ==> table_has(t, (#[trigger] rows[r]).0)
    &&& forall|k: int| 0 <= k < t.len() ==> rows_have(rows, (#[trigger] t[k]).0)
}

/// Builds the frequency table of the rows in two stages: first by values and
/// weight, counting; then by values, summing weight times count. Every line
/// carries `divisor` and `scale`.
pub fn aggregate(rows: &Vec<(Vec<String>, u64)>, divisor: i16, scale: usize) -> (t: Vec<FreqRow>)
    ensures
        frequency_table(freq_view(t@), rows_view(rows@)),
        forall|k: int| 0 <= k < t@.len() ==> (#[trigger] t@[k]).divisor == divisor && t@[k].scale == scale,
{
    let n_rows = rows.len();
    let groups = group_by_weight(rows);
    let ghost gv = groups_view(groups@);
    let ghost rv = rows_view(rows@);
    assert forall|key: Seq<Seq<char>>| #[trigger] group_sum(gv, key) <= u128::MAX by {
        lemma_weighted_total_bound(rv, key);
        let n = rv.len();
        assert(n == n_rows);
        assert(n * (u64::MAX as nat) <= u128::MAX) by (nonlinear_arith)
            requires
                n <= u64::MAX || n <= usize::MAX,
                usize::MAX <= u64::MAX,
        ;
    }
    let t = sum_by_values(&groups, divisor, scale);
    let ghost tv = freq_view(t@);
    assert forall|k: int| 0 <= k < tv.len() implies (#[trigger] tv[k]).1 == weighted_total(rv, tv[k].0) by {
        assert(tv[k].1 == group_sum(gv, tv[k].0));
    }
    assert forall|r: int| 0 <= r < rv.len() implies table_has(tv, (#[trigger] rv[r]).0) by {
        let a = choose|a: int| 0 <= a < gv.len() && (#[trigger] gv[a]).0 == (#[trigger] rv[r]).0 && gv[a].1 == rv[r].1;
        let k = choose|k: int| 0 <= k < tv.len() && (#[trigger] tv[k]).0 == (#[trigger] gv[a]).0;
        assert(0 <= k < tv.len() && tv[k].0 == rv[r].0);
    }
    assert forall|k: int| 0 <= k < tv.len() implies rows_have(rv, (#[trigger] tv[k]).0) by {
        let a = choose|a: int| 0 <= a < gv.len() && (#[trigger] tv[k]).0 == (#[trigger] gv[a]).0;
        let r = lemma_row_count_witness(rv, gv[a].0, gv[a].1);
        assert(0 <= r < rv.len() && tv[k].0 == rv[r].0);
    }
    assert(frequency_table(tv, rv));
    t
}

} // verus!
