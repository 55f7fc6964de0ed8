//! A whole frequency run over the lines of one file, and the builders of its
//! configuration.

use vstd::prelude::*;

verus! {

use crate::extract::{
    FreqError,
    DecimalWeight,
    ErrorView,
    LineOutcome,
    MyArgs,
    error_view,
    line_outcome,
    process_line,
    starts_positive,
    strings_view,
};
use crate::aggregate::{
    FreqRow,
    aggregate,
    copy_values,
    freq_view,
    frequency_table,
    rows_have,
    rows_view,
    table_has,
};
use crate::order::{entries, sort_rows, sorted_by_values};

/// The rows that a run over `lines` extracts, or the first failure.
pub open spec fn run_outcome(lines: Seq<Seq<u8>>, args: MyArgs) -> Result<
    Seq<(Seq<Seq<char>>, (nat, nat))>,
    ErrorView,
>
    decreases lines.len(),
{
    if lines.len() == 0 {
        Ok(Seq::empty())
    } else {
        match run_outcome(lines.drop_last(), args) {
            Err(e) => Err(e),
            Ok(rows) => match line_outcome(lines.last(), args) {
                LineOutcome::Skip => Ok(rows),
                LineOutcome::Row(v, w) => Ok(rows.push((v, w))),
                LineOutcome::Fail(e) => Err(e),
            },
        }
    }
}

/// Ten to the power `n`.
pub open spec fn pow10(n: nat) -> nat
    decreases n,
{
    if n == 0 {
        1
    } else {
        10 * pow10((n - 1) as nat)
    }
}

/// The largest decimal scale among the rows' weights, 0 for none.
pub open spec fn max_scale(rows: Seq<(Seq<Seq<char>>, (nat, nat))>) -> nat
    decreases rows.len(),
{
    if rows.len() == 0 {
        0
    } else if rows.last().1.1 > max_scale(rows.drop_last()) {
        rows.last().1.1
    } else {
        max_scale(rows.drop_last())
    }
}

/// The rows with every weight brought to the decimal scale `s`: a whole
/// number of units of `10^-s`.
pub open spec fn scaled_rows(rows: Seq<(Seq<Seq<char>>, (nat, nat))>, s: nat) -> Seq<(Seq<Seq<char>>, nat)> {
    Seq::new(rows.len(), |i: int| (rows[i].0, rows[i].1.0 * pow10((s - rows[i].1.1) as nat)))
}

/// Every weight brought to scale `s` fits in a `u64`.
pub open spec fn scaled_fit(rows: Seq<(Seq<Seq<char>>, (nat, nat))>, s: nat) -> bool {
    forall|i: int| 0 <= i < rows.len() ==> (#[trigger] scaled_rows(rows, s)[i]).1 <= u64::MAX
}

/// Extracted rows with decimal weights, as plain values.
pub open spec fn decimal_rows_view(rows: Seq<(Vec<String>, DecimalWeight)>) -> Seq<(Seq<Seq<char>>, (nat, nat))> {
    Seq::new(
        rows.len(),
        |i: int| (strings_view(rows[i].0@), (rows[i].1.mantissa as nat, rows[i].1.scale as nat)),
    )
}

proof fn lemma_max_scale_ge(rows: Seq<(Seq<Seq<char>>, (nat, nat))>, i: int)
    requires
        0 <= i < rows.len(),
    ensures
        rows[i].1.1 <= max_scale(rows),
    decreases rows.len(),
{
    if i < rows.len() - 1 {
        lemma_max_scale_ge(rows.drop_last(), i);
        assert(rows.drop_last()[i] == rows[i]);
    }
}

proof fn lemma_pow10_mono(j: nat, k: nat)
    requires
        j <= k,
    ensures
        pow10(j) <= pow10(k),
        pow10(j) >= 1,
    decreases k,
{
    if j < k {
        lemma_pow10_mono(j, (k - 1) as nat);
    } else if k > 0 {
        lemma_pow10_mono((k - 1) as nat, (k - 1) as nat);
    }
}

/// `m * 10^k`, or `None` when that does not fit in a `u64`.
fn scale_up(m: u64, k: usize) -> (r: Option<u64>)
    ensures
        r is Some <==> m * pow10(k as nat) <= u64::MAX,
        r matches Some(u) ==> u == m * pow10(k as nat),
{
    if m == 0 {
        assert(m * pow10(k as nat) == 0);
        return Some(0);
    }
    let mut v: u64 = m;
    let mut j: usize = 0;
    assert(pow10(0) == 1);
    while j < k
        invariant
            j <= k,
            m >= 1,
            v == m * pow10(j as nat),
        decreases k - j,
    {
        assert(pow10((j + 1) as nat) == 10 * pow10(j as nat));
        if v > u64::MAX / 10 {
            proof {
                lemma_pow10_mono((j + 1) as nat, k as nat);
                let a = pow10((j + 1) as nat);
                let b = pow10(k as nat);
                assert(m * a == v * 10) by (nonlinear_arith)
                    requires
                        a == 10 * pow10(j as nat),
                        v == m * pow10(j as nat),
                ;
                assert(m * a <= m * b) by (nonlinear_arith)
                    requires
                        a <= b,
                        m >= 1,
                ;
            }
            return None;
        }
        proof {
            let p = pow10(j as nat);
            assert(v * 10 == m * (10 * p)) by (nonlinear_arith)
                requires
                    v == m * p,
            ;
        }
        v = v * 10;
        j = j + 1;
    }
    Some(v)
}

/// The divisor of a run: the weight's, or 1 when unweighted.
pub open spec fn divisor_of(args: MyArgs) -> int {
    match args.weight {
        Some(w) => w.divisor as int,
        None => 1,
    }
}

/// The bytes of each line.
pub open spec fn lines_view(lines: Seq<Vec<u8>>) -> Seq<Seq<u8>> {
    Seq::new(lines.len(), |i: int| lines[i]@)
}

proof fn lemma_count_two(s: Seq<(Seq<Seq<char>>, nat, int, nat)>, a: int, b: int)
    requires
        0 <= a < s.len(),
        0 <= b < s.len(),
        a != b,
        s[a] == s[b],
    ensures
        s.to_multiset().count(s[a]) >= 2,
{
    s.to_multiset_ensures();
    let r = s.remove(a);
    r.to_multiset_ensures();
    let j = if b < a { b } else { b - 1 };
    assert(r[j] == s[b]);
    assert(r.contains(s[a]));
    assert(r.to_multiset().count(s[a]) > 0);
    assert(s.to_multiset().remove(s[a]).count(s[a]) > 0);
}

proof fn lemma_count_one(s: Seq<(Seq<Seq<char>>, nat, int, nat)>, a: int)
    requires
        0 <= a < s.len(),
        forall|i: int, j: int| 0 <= i < s.len() && 0 <= j < s.len() && i != j ==> s[i].0 != s[j].0,
    ensures
        s.to_multiset().count(s[a]) == 1,
{
    assert(s.no_duplicates());
    s.lemma_multiset_has_no_duplicates();
    s.to_multiset_ensures();
    assert(s.contains(s[a]));
}

/// Reordering the lines of a frequency table leaves it the frequency table.
proof fn lemma_table_reordered(u: Seq<FreqRow>, s: Seq<FreqRow>, rows: Seq<(Seq<Seq<char>>, nat)>)
    requires
        entries(s).to_multiset() == entries(u).to_multiset(),
        frequency_table(freq_view(u), rows),
    ensures
        frequency_table(freq_view(s), rows),
{
    let eu = entries(u);
    let es = entries(s);
    let fu = freq_view(u);
    let fs = freq_view(s);
    eu.to_multiset_ensures();
    es.to_multiset_ensures();
    assert forall|k: int| 0 <= k < s.len() implies eu.contains(#[trigger] es[k]) by {
        assert(es.contains(es[k]));
        assert(es.to_multiset().count(es[k]) > 0);
        assert(eu.to_multiset().count(es[k]) > 0);
    }
    assert forall|i: int, j: int| 0 <= i < eu.len() && 0 <= j < eu.len() && i != j implies eu[i].0
        != eu[j].0 by {
        assert(fu[i].0 == eu[i].0 && fu[j].0 == eu[j].0);
    }
    assert forall|k: int| 0 <= k < fs.len() implies (#[trigger] fs[k]).1 == crate::aggregate::weighted_total(
        rows,
        fs[k].0,
    ) && rows_have(rows, fs[k].0) by {
        let j = choose|j: int| 0 <= j < eu.len() && eu[j] == es[k];
        assert(fu[j].0 == fs[k].0 && fu[j].1 == fs[k].1);
    }
    assert forall|r: int| 0 <= r < rows.len() implies table_has(fs, (#[trigger] rows[r]).0) by {
        let j = choose|j: int| 0 <= j < fu.len() && (#[trigger] fu[j]).0 == rows[r].0;
        assert(eu.contains(eu[j]));
        assert(eu.to_multiset().count(eu[j]) > 0);
        assert(es.to_multiset().count(eu[j]) > 0);
        assert(es.contains(eu[j]));
        let k = choose|k: int| 0 <= k < es.len() && #[trigger] es[k] == eu[j];
        assert(fs[k].0 == rows[r].0);
    }
    assert forall|a: int, b: int| 0 <= a < fs.len() && 0 <= b < fs.len() && a != b implies (
    #[trigger] fs[a]).0 != (#[trigger] fs[b]).0 by {
        if fs[a].0 == fs[b].0 {
            let ja = choose|j: int| 0 <= j < eu.len() && eu[j] == es[a];
            let jb = choose|j: int| 0 <= j < eu.len() && eu[j] == es[b];
            assert(ja == jb);
            lemma_count_two(es, a, b);
            lemma_count_one(eu, ja);
        }
    }
}

/// Runs frequencies over the lines of one file: each line through
/// [`process_line`], the kept rows aggregated, the table sorted by values.
/// Returns the table and the number of lines examined, or the first failure.
pub fn run_freq_quick(lines: &Vec<Vec<u8>>, args: &MyArgs) -> (r: Result<(Vec<FreqRow>, usize), FreqError>)
    requires
        starts_positive(*args),
    ensures
        r is Ok <==> run_outcome(lines_view(lines@), *args) is Ok && scaled_fit(
            run_outcome(lines_view(lines@), *args)->Ok_0,
            max_scale(run_outcome(lines_view(lines@), *args)->Ok_0),
        ),
        r matches Err(e) ==> if run_outcome(lines_view(lines@), *args) is Err {
            run_outcome(lines_view(lines@), *args) == Err::<
                Seq<(Seq<Seq<char>>, (nat, nat))>,
                ErrorView,
            >(error_view(e))
        } else {
            error_view(e) == ErrorView::WeightRange
        },
        r matches Ok((t, n)) ==> {
            let rows = run_outcome(lines_view(lines@), *args)->Ok_0;
            let s = max_scale(rows);
            &&& n == lines@.len()
            &&& frequency_table(freq_view(t@), scaled_rows(rows, s))
            &&& sorted_by_values(entries(t@))
            &&& forall|k: int|
                0 <= k < t@.len() ==> #[trigger] t@[k].divisor == divisor_of(*args) && t@[k].scale == s
        },
{
    let ghost lv = lines_view(lines@);
    let mut rows: Vec<(Vec<String>, DecimalWeight)> = Vec::new();
    let mut i: usize = 0;
    assert(decimal_rows_view(rows@) =~= Seq::<(Seq<Seq<char>>, (nat, nat))>::empty());
    assert(lv.subrange(0, 0).len() == 0);
    while i < lines.len()
        invariant
            i <= lines@.len(),
            lv == lines_view(lines@),
            starts_positive(*args),
            run_outcome(lv.subrange(0, i as int), *args) == Ok::<
                Seq<(Seq<Seq<char>>, (nat, nat))>,
                ErrorView,
            >(decimal_rows_view(rows@)),
        decreases lines@.len() - i,
    {
        assert(lv.subrange(0, i + 1).drop_last() =~= lv.subrange(0, i as int));
        assert(lv.subrange(0, i + 1).last() == lines@[i as int]@);
        let line = copy_line(&lines[i]);
        match process_line(line, args) {
            Err(e) => {
                proof {
                    lemma_run_fails(lv, i as int, *args);
                }
                return Err(e);
            },
            Ok(None) => {},
            Ok(Some(p)) => {
                let ghost before = decimal_rows_view(rows@);
                rows.push(p);
                assert(decimal_rows_view(rows@) =~= before.push(
                    (strings_view(p.0@), (p.1.mantissa as nat, p.1.scale as nat)),
                ));
            },
        }
        i = i + 1;
    }
    assert(lv.subrange(0, i as int) =~= lv);
    let divisor: i16 = match &args.weight {
        Some(w) => w.divisor,
        None => 1,
    };
    let n = lines.len();
    let ghost dv = decimal_rows_view(rows@);
    let mut scale: usize = 0;
    let mut i: usize = 0;
    while i < rows.len()
        invariant
            i <= rows@.len(),
            dv == decimal_rows_view(rows@),
            run_outcome(lv, *args) == Ok::<Seq<(Seq<Seq<char>>, (nat, nat))>, ErrorView>(dv),
            lv == lines_view(lines@),
            scale == max_scale(dv.subrange(0, i as int)),
        decreases rows@.len() - i,
    {
        assert(dv.subrange(0, i + 1).drop_last() =~= dv.subrange(0, i as int));
        if rows[i].1.scale > scale {
            scale = rows[i].1.scale;
        }
        i = i + 1;
    }
    assert(dv.subrange(0, i as int) =~= dv);
    let ghost target = scaled_rows(dv, scale as nat);
    let mut units: Vec<(Vec<String>, u64)> = Vec::new();
    let mut i: usize = 0;
    while i < rows.len()
        invariant
            i <= rows@.len(),
            dv == decimal_rows_view(rows@),
            run_outcome(lv, *args) == Ok::<Seq<(Seq<Seq<char>>, (nat, nat))>, ErrorView>(dv),
            lv == lines_view(lines@),
            scale == max_scale(dv),
            target == scaled_rows(dv, scale as nat),
            forall|q: int| 0 <= q < i ==> (#[trigger] target[q]).1 <= u64::MAX,
            units@.len() == i,
            rows_view(units@) == target.subrange(0, i as int),
        decreases rows@.len() - i,
    {
        proof {
            lemma_max_scale_ge(dv, i as int);
        }
        let w = rows[i].1;
        assert(dv[i as int].1 == (w.mantissa as nat, w.scale as nat));
        assert(target[i as int].1 == w.mantissa * pow10((scale - w.scale) as nat));
        let u = match scale_up(w.mantissa, scale - w.scale) {
            Some(u) => u,
            None => {
                assert(!scaled_fit(dv, scale as nat));
                return Err(FreqError::WeightOutOfRange);
            },
        };
        assert(dv[i as int].0 == strings_view(rows@[i as int].0@));
        let ghost before = rows_view(units@);
        let vals = copy_values(&rows[i].0);
        units.push((vals, u));
        assert(rows_view(units@)[i as int] == (strings_view(vals@), u as nat));
        assert(rows_view(units@)[i as int] == target[i as int]);
        assert forall|q: int| 0 <= q < i implies rows_view(units@)[q] == target.subrange(0, i + 1)[q] by {
            assert(rows_view(units@)[q] == before[q]);
        }
        assert(rows_view(units@) =~= target.subrange(0, i + 1));
        i = i + 1;
    }
    assert(target.subrange(0, i as int) =~= target);
    let table = aggregate(&units, divisor, scale);
    let sorted = sort_rows(&table);
    proof {
        lemma_table_reordered(table@, sorted@, rows_view(units@));
        assert forall|k: int| 0 <= k < sorted@.len() implies #[trigger] sorted@[k].divisor
            == divisor_of(*args) && sorted@[k].scale == scale by {
            entries(sorted@).to_multiset_ensures();
            entries(table@).to_multiset_ensures();
            assert(entries(sorted@).contains(entries(sorted@)[k]));
            assert(entries(sorted@).to_multiset().count(entries(sorted@)[k]) > 0);
            assert(entries(table@).to_multiset().count(entries(sorted@)[k]) > 0);
            assert(entries(table@).contains(entries(sorted@)[k]));
            let j = choose|j: int| 0 <= j < table@.len() && entries(table@)[j] == entries(sorted@)[k];
            assert(entries(table@)[j].2 == table@[j].divisor);
            assert(entries(table@)[j].3 == table@[j].scale);
        }
    }
    Ok((sorted, n))
}

/// Once a line fails, the run fails with the first failure.
proof fn lemma_run_fails(lv: Seq<Seq<u8>>, i: int, args: MyArgs)
    requires
        0 <= i < lv.len(),
        run_outcome(lv.subrange(0, i), args) is Ok,
        line_outcome(lv[i], args) is Fail,
    ensures
        run_outcome(lv, args) == Err::<Seq<(Seq<Seq<char>>, (nat, nat))>, ErrorView>(
            line_outcome(lv[i], args)->Fail_0,
        ),
    decreases lv.len() - i,
{
    assert(lv.subrange(0, i + 1).drop_last() =~= lv.subrange(0, i));
    lemma_run_stays_failed(lv, i + 1, args);
}

proof fn lemma_run_stays_failed(lv: Seq<Seq<u8>>, j: int, args: MyArgs)
    requires
        0 <= j <= lv.len(),
        run_outcome(lv.subrange(0, j), args) is Err,
    ensures
        run_outcome(lv, args) == run_outcome(lv.subrange(0, j), args),
    decreases lv.len() - j,
{
    if j < lv.len() {
        assert(lv.subrange(0, j + 1).drop_last() =~= lv.subrange(0, j));
        lemma_run_stays_failed(lv, j + 1, args);
    } else {
        assert(lv.subrange(0, j) =~= lv);
    }
}

/// A copy of a line's bytes.
fn copy_line(line: &Vec<u8>) -> (r: Vec<u8>)
    ensures
        r@ == line@,
{
    let mut r: Vec<u8> = Vec::new();
    let mut i: usize = 0;
    while i < line.len()
        invariant
            i <= line@.len(),
            r@ == line@.subrange(0, i as int),
        decreases line@.len() - i,
    {
        r.push(line[i]);
        assert(r@ =~= line@.subrange(0, i + 1));
        i = i + 1;
    }
    assert(line@.subrange(0, i as int) =~= line@);
    r
}

} // verus!
