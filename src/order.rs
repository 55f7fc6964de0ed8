//! The output order of a frequency table: ascending by every values column
//! in turn, each compared by its UTF-8 bytes.

use vstd::prelude::*;

verus! {

use vstd::utf8::encode_utf8;
use vstd::seq_lib::to_multiset_insert;
use crate::extract::strings_view;
use crate::aggregate::{FreqRow, copy_values};

/// Lexicographic comparison of two byte strings from position `i` on:
/// negative, zero or positive.
pub open spec fn bytes_cmp(a: Seq<u8>, b: Seq<u8>, i: int) -> int
    decreases a.len() - i,
{
    if i < 0 || (i >= a.len() && i >= b.len()) {
        0
    } else if i >= a.len() {
        -1
    } else if i >= b.len() {
        1
    } else if a[i] < b[i] {
        -1
    } else if a[i] > b[i] {
        1
    } else {
        bytes_cmp(a, b, i + 1)
    }
}

/// Comparison of two texts by their UTF-8 bytes.
pub open spec fn text_cmp(a: Seq<char>, b: Seq<char>) -> int {
    bytes_cmp(encode_utf8(a), encode_utf8(b), 0)
}

/// Lexicographic comparison of two values tuples from column `i` on.
pub open spec fn key_cmp(a: Seq<Seq<char>>, b: Seq<Seq<char>>, i: int) -> int
    decreases a.len() - i,
{
    if i < 0 || (i >= a.len() && i >= b.len()) {
        0
    } else if i >= a.len() {
        -1
    } else if i >= b.len() {
        1
    } else if text_cmp(a[i], b[i]) != 0 {
        text_cmp(a[i], b[i])
    } else {
        key_cmp(a, b, i + 1)
    }
}

/// A frequency line as plain values: values, total, divisor and scale.
pub open spec fn entry(r: FreqRow) -> (Seq<Seq<char>>, nat, int, nat) {
    (strings_view(r.values@), r.total as nat, r.divisor as int, r.scale as nat)
}

/// Every line of a frequency table as plain values.
pub open spec fn entries(t: Seq<FreqRow>) -> Seq<(Seq<Seq<char>>, nat, int, nat)> {
    Seq::new(t.len(), |i: int| entry(t[i]))
}

/// Each line's values come no later than the next line's.
pub open spec fn sorted_by_values(e: Seq<(Seq<Seq<char>>, nat, int, nat)>) -> bool {
    forall|i: int| 0 <= i < e.len() - 1 ==> key_cmp(#[trigger] e[i].0, e[i + 1].0, 0) <= 0
}

pub(crate) proof fn lemma_bytes_cmp_antisym(a: Seq<u8>, b: Seq<u8>, i: int)
    ensures
        bytes_cmp(a, b, i) == -bytes_cmp(b, a, i),
    decreases a.len() - i,
{
    if i >= 0 && i < a.len() && i < b.len() && a[i] == b[i] {
        lemma_bytes_cmp_antisym(a, b, i + 1);
    }
}

proof fn lemma_key_cmp_antisym(a: Seq<Seq<char>>, b: Seq<Seq<char>>, i: int)
    ensures
        key_cmp(a, b, i) == -key_cmp(b, a, i),
    decreases a.len() - i,
{
    if i >= 0 && i < a.len() && i < b.len() {
        lemma_bytes_cmp_antisym(encode_utf8(a[i]), encode_utf8(b[i]), 0);
        lemma_key_cmp_antisym(a, b, i + 1);
    }
}

proof fn lemma_bytes_cmp_zero(a: Seq<u8>, b: Seq<u8>, c: Seq<u8>, i: int)
    requires
        i >= 0,
        bytes_cmp(a, b, i) == 0,
    ensures
        bytes_cmp(a, c, i) == bytes_cmp(b, c, i),
    decreases a.len() - i,
{
    if i < a.len() && i < b.len() {
        lemma_bytes_cmp_zero(a, b, c, i + 1);
    }
}

proof fn lemma_bytes_cmp_trans(a: Seq<u8>, b: Seq<u8>, c: Seq<u8>, i: int)
    requires
        i >= 0,
        bytes_cmp(a, b, i) <= 0,
        bytes_cmp(b, c, i) <= 0,
    ensures
        bytes_cmp(a, c, i) <= 0,
        bytes_cmp(a, b, i) < 0 || bytes_cmp(b, c, i) < 0 ==> bytes_cmp(a, c, i) < 0,
    decreases a.len() - i,
{
    if i < a.len() && i < b.len() && i < c.len() && a[i] == b[i] && b[i] == c[i] {
        lemma_bytes_cmp_trans(a, b, c, i + 1);
    }
}

proof fn lemma_key_cmp_trans(a: Seq<Seq<char>>, b: Seq<Seq<char>>, c: Seq<Seq<char>>, i: int)
    requires
        i >= 0,
        key_cmp(a, b, i) <= 0,
        key_cmp(b, c, i) <= 0,
    ensures
        key_cmp(a, c, i) <= 0,
    decreases a.len() - i,
{
    if i < a.len() && i < b.len() && i < c.len() {
        let (x, y, z) = (encode_utf8(a[i]), encode_utf8(b[i]), encode_utf8(c[i]));
        if text_cmp(a[i], b[i]) == 0 {
            lemma_bytes_cmp_zero(x, y, z, 0);
        }
        if text_cmp(b[i], c[i]) == 0 {
            lemma_bytes_cmp_antisym(y, z, 0);
            lemma_bytes_cmp_zero(z, y, x, 0);
            lemma_bytes_cmp_antisym(x, z, 0);
            lemma_bytes_cmp_antisym(x, y, 0);
        }
        if text_cmp(a[i], b[i]) < 0 && text_cmp(b[i], c[i]) < 0 {
            lemma_bytes_cmp_trans(x, y, z, 0);
        }
        if text_cmp(a[i], b[i]) == 0 && text_cmp(b[i], c[i]) == 0 {
            lemma_key_cmp_trans(a, b, c, i + 1);
        }
    }
}

/// Lines sorted by values are in order pairwise, not only next to each other.
pub proof fn lemma_sorted_pairwise(e: Seq<(Seq<Seq<char>>, nat, int, nat)>, i: int, j: int)
    requires
        sorted_by_values(e),
        0 <= i <= j < e.len(),
    ensures
        key_cmp(e[i].0, e[j].0, 0) <= 0,
    decreases j - i,
{
    if i == j {
        lemma_key_cmp_antisym(e[i].0, e[i].0, 0);
    } else {
        lemma_sorted_pairwise(e, i, j - 1);
        assert(key_cmp(e[j - 1].0, e[j].0, 0) <= 0);
        lemma_key_cmp_trans(e[i].0, e[j - 1].0, e[j].0, 0);
    }
}

/// Compares two texts by their UTF-8 bytes.
pub fn compare_text(a: &String, b: &String) -> (r: i8)
    ensures
        r == text_cmp(a@, b@),
{
    let x = a.as_str().as_bytes();
    let y = b.as_str().as_bytes();
    let mut i: usize = 0;
    while i < x.len() && i < y.len()
        invariant
            x@ == encode_utf8(a@),
            y@ == encode_utf8(b@),
            i <= x@.len(),
            i <= y@.len(),
            bytes_cmp(x@, y@, 0) == bytes_cmp(x@, y@, i as int),
        decreases x@.len() - i,
    {
        if x[i] < y[i] {
            return -1;
        } else if x[i] > y[i] {
            return 1;
        }
        i = i + 1;
    }
    if i < x.len() {
        1
    } else if i < y.len() {
        -1
    } else {
        0
    }
}

/// Compares two values tuples column by column.
pub fn compare_values(a: &Vec<String>, b: &Vec<String>) -> (r: i8)
    ensures
        r == key_cmp(strings_view(a@), strings_view(b@), 0),
{
    let ghost sa = strings_view(a@);
    let ghost sb = strings_view(b@);
    let mut i: usize = 0;
    while i < a.len() && i < b.len()
        invariant
            sa == strings_view(a@),
            sb == strings_view(b@),
            i <= a@.len(),
            i <= b@.len(),
            key_cmp(sa, sb, 0) == key_cmp(sa, sb, i as int),
        decreases a@.len() - i,
    {
        let c = compare_text(&a[i], &b[i]);
        assert(sa[i as int] == a@[i as int]@ && sb[i as int] == b@[i as int]@);
        if c != 0 {
            return c;
        }
        i = i + 1;
    }
    if i < a.len() {
        1
    } else if i < b.len() {
        -1
    } else {
        0
    }
}

/// A copy of a frequency line.
fn copy_row(r: &FreqRow) -> (c: FreqRow)
    ensures
        entry(c) == entry(*r),
{
    FreqRow { values: copy_values(&r.values), total: r.total, divisor: r.divisor, scale: r.scale }
}

/// The lines in ascending order of their values, compared column by column.
pub fn sort_rows(t: &Vec<FreqRow>) -> (s: Vec<FreqRow>)
    ensures
        entries(s@).to_multiset() == entries(t@).to_multiset(),
        sorted_by_values(entries(s@)),
{
    let mut s: Vec<FreqRow> = Vec::new();
    let mut i: usize = 0;
    assert(entries(s@) =~= entries(t@.subrange(0, 0)));
    while i < t.len()
        invariant
            i <= t@.len(),
            entries(s@).to_multiset() == entries(t@.subrange(0, i as int)).to_multiset(),
            sorted_by_values(entries(s@)),
        decreases t@.len() - i,
    {
        let x = &t[i];
        let mut p: usize = 0;
        while p < s.len()
            invariant
                p <= s@.len(),
                forall|q: int| 0 <= q < p ==> key_cmp(entry(*x).0, (#[trigger] entries(s@)[q]).0, 0) >= 0,
            ensures
                p <= s@.len(),
                forall|q: int| 0 <= q < p ==> key_cmp(entry(*x).0, (#[trigger] entries(s@)[q]).0, 0) >= 0,
                p < s@.len() ==> key_cmp(entry(*x).0, entries(s@)[p as int].0, 0) < 0,
            decreases s@.len() - p,
        {
            if compare_values(&x.values, &s[p].values) < 0 {
                break;
            }
            p = p + 1;
        }
        let ghost old_e = entries(s@);
        let c = copy_row(x);
        s.insert(p, c);
        assert(entries(s@) =~= old_e.insert(p as int, entry(*x)));
        assert(entries(t@.subrange(0, i + 1)) =~= entries(t@.subrange(0, i as int)).push(entry(*x)));
        proof {
            to_multiset_insert(old_e, p as int, entry(*x));
            entries(t@.subrange(0, i as int)).to_multiset_ensures();
        }
        assert forall|q: int| 0 <= q < entries(s@).len() - 1 implies key_cmp(
            #[trigger] entries(s@)[q].0,
            entries(s@)[q + 1].0,
            0,
        ) <= 0 by {
            if q == p - 1 {
                lemma_key_cmp_antisym(entry(*x).0, old_e[q].0, 0);
            } else if q == p {
                if p < old_e.len() {
                    assert(key_cmp(entry(*x).0, old_e[p as int].0, 0) < 0);
                }
            } else if q < p - 1 {
                assert(old_e[q] == entries(s@)[q]);
            } else {
                assert(old_e[q - 1] == entries(s@)[q]);
            }
        }
        i = i + 1;
    }
    assert(t@.subrange(0, i as int) =~= t@);
    s
}

} // verus!
