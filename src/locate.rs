//! Pattern search: where a literal or a regular expression matches in each
//! line, and how often each (file, text, record type, column) occurs.

use vstd::prelude::*;

verus! {

use vstd::utf8::*;
use crate::extract::{FreqError, ErrorView, error_view, in_range, field_bytes, check_range, copy_field};
use crate::text::utf8_text;
use crate::regex_pattern::{RegexPattern, regex_matches, regex_spans_of, spans_view};
use crate::order::{text_cmp, compare_text, lemma_bytes_cmp_antisym};

/// What is searched for.
#[derive(Debug)]
pub enum Pattern {
    /// An exact string.
    Literal(String),
    /// A regular expression.
    Regex(RegexPattern),
}

/// One match: the file, the matched text, the line's record type, the
/// 1-based column where the match ends, and the 1-based line number.
#[derive(Debug, Clone, PartialEq, Eq)]
pub struct MatchRecord {
    pub file: String,
    pub text: String,
    pub rectype: String,
    pub column: usize,
    pub line_number: usize,
}

/// The record-type column of the search.
#[derive(Debug, Clone, Copy, PartialEq, Eq, Structural)]
pub struct RecColumn {
    pub start: usize,
    pub width: usize,
    pub ignore: bool,
}

/// `pat` occurs in `line` at byte `p`.
pub open spec fn occurs_at(line: Seq<u8>, pat: Seq<u8>, p: int) -> bool {
    0 <= p && p + pat.len() <= line.len() && line.subrange(p, p + pat.len()) == pat
}

/// The end offsets of the non-overlapping occurrences of `pat` in `line`
/// from byte `from` on, each search resuming where the last match ended.
pub open spec fn literal_ends(line: Seq<u8>, pat: Seq<u8>, from: int) -> Seq<int>
    decreases line.len() - from,
{
    if pat.len() == 0 || from < 0 || from + pat.len() > line.len() {
        Seq::empty()
    } else if occurs_at(line, pat, from) {
        seq![from + pat.len()] + literal_ends(line, pat, from + pat.len())
    } else {
        literal_ends(line, pat, from + 1)
    }
}

/// Whether `pat` occurs in `line` at byte `p`.
fn matches_at(line: &[u8], pat: &[u8], p: usize) -> (r: bool)
    requires
        p + pat@.len() <= line@.len(),
    ensures
        r == occurs_at(line@, pat@, p as int),
{
    let n = line.len();
    let mut k: usize = 0;
    while k < pat.len()
        invariant
            n == line@.len(),
            k <= pat@.len(),
            p + pat@.len() <= line@.len(),
            forall|q: int| 0 <= q < k ==> line@[p + q] == #[trigger] pat@[q],
        decreases pat@.len() - k,
    {
        if line[p + k] != pat[k] {
            assert(line@.subrange(p as int, p + pat@.len())[k as int] != pat@[k as int]);
            return false;
        }
        k = k + 1;
    }
    assert(line@.subrange(p as int, p + pat@.len()) =~= pat@);
    true
}

/// The end offsets of the non-overlapping occurrences of a literal; none for
/// an empty one.
pub fn find_literal(line: &[u8], pat: &[u8]) -> (r: Vec<usize>)
    ensures
        r@.map_values(|e: usize| e as int) == literal_ends(line@, pat@, 0),
{
    let mut r: Vec<usize> = Vec::new();
    if pat.len() == 0 {
        assert(r@.map_values(|e: usize| e as int) =~= literal_ends(line@, pat@, 0));
        return r;
    }
    let mut from: usize = 0;
    while from <= line.len() && pat.len() <= line.len() - from
        invariant
            pat@.len() > 0,
            from <= line@.len() + 1,
            literal_ends(line@, pat@, 0) == r@.map_values(|e: usize| e as int) + literal_ends(
                line@,
                pat@,
                from as int,
            ),
        decreases line@.len() + 1 - from,
    {
        if matches_at(line, pat, from) {
            let end = from + pat.len();
            let ghost before = r@.map_values(|e: usize| e as int);
            r.push(end);
            assert(r@.map_values(|e: usize| e as int) =~= before.push(end as int));
            assert(literal_ends(line@, pat@, from as int) == seq![end as int] + literal_ends(
                line@,
                pat@,
                end as int,
            ));
            assert(before + (seq![end as int] + literal_ends(line@, pat@, end as int)) =~= before.push(
                end as int,
            ) + literal_ends(line@, pat@, end as int));
            from = end;
        } else {
            from = from + 1;
        }
    }
    assert(literal_ends(line@, pat@, from as int) =~= Seq::<int>::empty());
    assert(r@.map_values(|e: usize| e as int) + Seq::<int>::empty() =~= r@.map_values(
        |e: usize| e as int,
    ));
    r
}

/// The record type of a line: empty when ignored, else the UTF-8 text of its
/// column.
pub fn line_rectype(line: &[u8], rc: &RecColumn) -> (r: Result<String, FreqError>)
    requires
        rc.start >= 1,
    ensures
        rc.ignore ==> r is Ok && r->Ok_0@.len() == 0,
        !rc.ignore ==> (r is Ok <==> in_range(line@.len(), rc.start as nat, rc.width as nat)
            && valid_utf8(field_bytes(line@, rc.start as nat, rc.width as nat))),
        !rc.ignore && r is Ok ==> r->Ok_0@ == decode_utf8(
            field_bytes(line@, rc.start as nat, rc.width as nat),
        ),
        r matches Err(e) ==> error_view(e) == if in_range(
            line@.len(),
            rc.start as nat,
            rc.width as nat,
        ) {
            ErrorView::Encoding(field_bytes(line@, rc.start as nat, rc.width as nat), rc.start as nat, rc.width as nat)
        } else {
            ErrorView::OutOfRange(line@.len(), rc.start as nat, rc.width as nat)
        },
{
    if rc.ignore {
        return Ok(String::new());
    }
    check_range(line, rc.start, rc.width)?;
    let bytes = copy_field(line, rc.start, rc.width);
    match utf8_text(bytes.as_slice()) {
        Some(s) => Ok(s),
        None => Err(FreqError::EncodingError { bytes, start: rc.start, width: rc.width }),
    }
}

/// Whether the record type of a line can be read.
pub open spec fn rectype_ok(line: Seq<u8>, rc: RecColumn) -> bool {
    rc.ignore || (in_range(line.len(), rc.start as nat, rc.width as nat) && valid_utf8(
        field_bytes(line, rc.start as nat, rc.width as nat),
    ))
}

/// The record type that a line reports: empty when ignored, else the UTF-8
/// text of its column.
pub open spec fn rectype_text(line: Seq<u8>, rc: RecColumn) -> Seq<char> {
    if rc.ignore {
        Seq::empty()
    } else {
        decode_utf8(field_bytes(line, rc.start as nat, rc.width as nat))
    }
}

/// Why the record type of a line cannot be read.
pub open spec fn rectype_error(line: Seq<u8>, rc: RecColumn) -> ErrorView {
    if in_range(line.len(), rc.start as nat, rc.width as nat) {
        ErrorView::Encoding(
            field_bytes(line, rc.start as nat, rc.width as nat),
            rc.start as nat,
            rc.width as nat,
        )
    } else {
        ErrorView::OutOfRange(line.len(), rc.start as nat, rc.width as nat)
    }
}

/// A match found on line number `ln`, whose bytes are `line`: it names the
/// file and the line, carries the line's record type, and its text is the
/// bytes of the line that end at its column.
pub open spec fn record_on_line(r: MatchRecord, line: Seq<u8>, file: Seq<char>, ln: nat, rc: RecColumn) -> bool {
    &&& r.file@ == file
    &&& r.line_number == ln
    &&& r.rectype@ == rectype_text(line, rc)
    &&& r.column <= line.len()
    &&& encode_utf8(r.text@).len() <= r.column
    &&& encode_utf8(r.text@) == line.subrange(r.column - encode_utf8(r.text@).len(), r.column as int)
}

/// One record per match, in order: the match's end is the column and its
/// text the text.
pub fn regex_records(
    file: &String,
    line_number: usize,
    rectype: &String,
    spans: &Vec<(usize, usize, String)>,
) -> (v: Vec<MatchRecord>)
    ensures
        v@.len() == spans@.len(),
        forall|k: int|
            0 <= k < v@.len() ==> #[trigger] v@[k] == (MatchRecord {
                file: *file,
                text: spans@[k].2,
                rectype: *rectype,
                column: spans@[k].1,
                line_number,
            }),
{
    let mut v: Vec<MatchRecord> = Vec::new();
    let mut k: usize = 0;
    while k < spans.len()
        invariant
            k <= spans@.len(),
            v@.len() == k,
            forall|q: int|
                0 <= q < k ==> #[trigger] v@[q] == (MatchRecord {
                    file: *file,
                    text: spans@[q].2,
                    rectype: *rectype,
                    column: spans@[q].1,
                    line_number,
                }),
        decreases spans@.len() - k,
    {
        v.push(
            MatchRecord {
                file: file.clone(),
                text: spans[k].2.clone(),
                rectype: rectype.clone(),
                column: spans[k].1,
                line_number,
            },
        );
        k = k + 1;
    }
    v
}

/// The matches of a pattern in one line, in order: for a literal, its
/// non-overlapping occurrences; for a regular expression, its successive
/// non-overlapping matches.
pub fn locate_line(
    file: &String,
    line: &String,
    line_number: usize,
    pattern: &Pattern,
    rc: &RecColumn,
) -> (r: Result<Vec<MatchRecord>, FreqError>)
    requires
        rc.start >= 1,
    ensures
        r is Ok <==> rectype_ok(encode_utf8(line@), *rc),
        r matches Err(e) ==> error_view(e) == rectype_error(encode_utf8(line@), *rc),
        r matches Ok(v) ==> forall|k: int|
            0 <= k < v@.len() ==> record_on_line(
                #[trigger] v@[k],
                encode_utf8(line@),
                file@,
                line_number as nat,
                *rc,
            ),
        r matches Ok(v) ==> pattern matches Pattern::Literal(lit) ==> {
            &&& v@.len() == literal_ends(encode_utf8(line@), encode_utf8(lit@), 0).len()
            &&& forall|k: int|
                0 <= k < v@.len() ==> (#[trigger] v@[k]).column == literal_ends(
                    encode_utf8(line@),
                    encode_utf8(lit@),
                    0,
                )[k] && v@[k].text@ == lit@
        },
        r matches Ok(v) ==> pattern matches Pattern::Regex(p) ==> {
            &&& v@.len() == regex_spans_of(p.text(), line@).len()
            &&& forall|k: int|
                0 <= k < v@.len() ==> (#[trigger] v@[k]).column == regex_spans_of(p.text(), line@)[k].1
                    && v@[k].column - encode_utf8(v@[k].text@).len() == regex_spans_of(
                    p.text(),
                    line@,
                )[k].0
        },
{
    let bytes = line.as_str().as_bytes();
    let rectype = line_rectype(bytes, rc)?;
    proof {
        if rc.ignore {
            assert(rectype@ =~= Seq::<char>::empty());
        }
    }
    let mut out: Vec<MatchRecord> = Vec::new();
    match pattern {
        Pattern::Literal(lit) => {
            let pat = lit.as_str().as_bytes();
            let ends = find_literal(bytes, pat);
            let ghost le = literal_ends(bytes@, pat@, 0);
            proof {
                lemma_literal_ends_bounds(bytes@, pat@, 0);
            }
            let mut k: usize = 0;
            while k < ends.len()
                invariant
                    k <= ends@.len(),
                    ends@.map_values(|e: usize| e as int) == le,
                    le == literal_ends(bytes@, pat@, 0),
                    bytes@ == encode_utf8(line@),
                    pat@ == encode_utf8(lit@),
                    forall|q: int| 0 <= q < le.len() ==> occurs_at(bytes@, pat@, #[trigger] le[q] - pat@.len()),
                    out@.len() == k,
                    forall|q: int|
                        0 <= q < k ==> {
                            &&& (#[trigger] out@[q]).file@ == file@
                            &&& out@[q].line_number == line_number
                            &&& out@[q].rectype@ == rectype@
                            &&& out@[q].column == le[q]
                            &&& out@[q].text@ == lit@
                        },
                decreases ends@.len() - k,
            {
                let end = ends[k];
                assert(le[k as int] == end);
                out.push(
                    MatchRecord {
                        file: file.clone(),
                        text: lit.clone(),
                        rectype: rectype.clone(),
                        column: end,
                        line_number,
                    },
                );
                k = k + 1;
            }
            assert forall|q: int| 0 <= q < out@.len() implies encode_utf8(out@[q].text@).len()
                <= out@[q].column && out@[q].column <= bytes@.len() && encode_utf8(out@[q].text@)
                == bytes@.subrange(out@[q].column - encode_utf8(out@[q].text@).len(), out@[q].column as int) by {
                assert(occurs_at(bytes@, pat@, le[q] - pat@.len()));
            }
        },
        Pattern::Regex(p) => {
            let spans = regex_matches(p, line.as_str());
            out = regex_records(file, line_number, &rectype, &spans);
            assert forall|q: int| 0 <= q < out@.len() implies encode_utf8(out@[q].text@).len()
                <= out@[q].column && out@[q].column <= bytes@.len() && encode_utf8(out@[q].text@)
                == bytes@.subrange(out@[q].column - encode_utf8(out@[q].text@).len(), out@[q].column as int)
                && out@[q].column == regex_spans_of(p.text(), line@)[q].1
                && out@[q].column - encode_utf8(out@[q].text@).len() == regex_spans_of(p.text(), line@)[q].0 by {
                assert(spans@[q].0 <= spans@[q].1);
                assert(spans_view(spans@)[q] == (spans@[q].0 as int, spans@[q].1 as int));
            }
        },
    }
    Ok(out)
}

proof fn lemma_literal_ends_bounds(line: Seq<u8>, pat: Seq<u8>, from: int)
    ensures
        forall|q: int|
            0 <= q < literal_ends(line, pat, from).len() ==> occurs_at(
                line,
                pat,
                #[trigger] literal_ends(line, pat, from)[q] - pat.len(),
            ),
    decreases line.len() - from,
{
    if pat.len() == 0 || from < 0 || from + pat.len() > line.len() {
    } else if occurs_at(line, pat, from) {
        lemma_literal_ends_bounds(line, pat, from + pat.len());
        let rest = literal_ends(line, pat, from + pat.len());
        assert forall|q: int| 0 <= q < literal_ends(line, pat, from).len() implies occurs_at(
            line,
            pat,
            #[trigger] literal_ends(line, pat, from)[q] - pat.len(),
        ) by {
            if q > 0 {
                assert(literal_ends(line, pat, from)[q] == rest[q - 1]);
            }
        }
    } else {
        lemma_literal_ends_bounds(line, pat, from + 1);
        assert(literal_ends(line, pat, from) == literal_ends(line, pat, from + 1));
    }
}

/// How many distinct lines hold a match of one text at one column, for one
/// file and record type.
#[derive(Debug, Clone, PartialEq, Eq)]
pub struct MatchCount {
    pub file: String,
    pub text: String,
    pub rectype: String,
    pub column: usize,
    pub n: usize,
}

/// The grouping key of a match: file, text, record type and column.
pub open spec fn record_key(r: MatchRecord) -> (Seq<char>, Seq<char>, Seq<char>, nat) {
    (r.file@, r.text@, r.rectype@, r.column as nat)
}

/// The key and count of a grouped line.
pub open spec fn counts_view(t: Seq<MatchCount>) -> Seq<((Seq<char>, Seq<char>, Seq<char>, nat), nat)> {
    Seq::new(t.len(), |i: int| ((t[i].file@, t[i].text@, t[i].rectype@, t[i].column as nat), t[i].n as nat))
}

/// Some match with key `key` lies on line `line`.
pub open spec fn line_seen(recs: Seq<MatchRecord>, key: (Seq<char>, Seq<char>, Seq<char>, nat), line: nat) -> bool {
    exists|j: int| 0 <= j < recs.len() && record_key(#[trigger] recs[j]) == key && recs[j].line_number == line
}

/// The number of distinct lines that hold a match with key `key`.
pub open spec fn distinct_lines(recs: Seq<MatchRecord>, key: (Seq<char>, Seq<char>, Seq<char>, nat)) -> nat
    decreases recs.len(),
{
    if recs.len() == 0 {
        0
    } else {
        distinct_lines(recs.drop_last(), key) + if record_key(recs.last()) == key && !line_seen(
            recs.drop_last(),
            key,
            recs.last().line_number as nat,
        ) {
            1nat
        } else {
            0
        }
    }
}

/// Ascending order of match keys: file, text and record type by their UTF-8
/// bytes, then column.
pub open spec fn match_key_cmp(
    a: (Seq<char>, Seq<char>, Seq<char>, nat),
    b: (Seq<char>, Seq<char>, Seq<char>, nat),
) -> int {
    if text_cmp(a.0, b.0) != 0 {
        text_cmp(a.0, b.0)
    } else if text_cmp(a.1, b.1) != 0 {
        text_cmp(a.1, b.1)
    } else if text_cmp(a.2, b.2) != 0 {
        text_cmp(a.2, b.2)
    } else if a.3 < b.3 {
        -1
    } else if a.3 > b.3 {
        1
    } else {
        0
    }
}

proof fn lemma_match_key_cmp_antisym(
    a: (Seq<char>, Seq<char>, Seq<char>, nat),
    b: (Seq<char>, Seq<char>, Seq<char>, nat),
)
    ensures
        match_key_cmp(a, b) == -match_key_cmp(b, a),
{
    lemma_bytes_cmp_antisym(encode_utf8(a.0), encode_utf8(b.0), 0);
    lemma_bytes_cmp_antisym(encode_utf8(a.1), encode_utf8(b.1), 0);
    lemma_bytes_cmp_antisym(encode_utf8(a.2), encode_utf8(b.2), 0);
}

/// Some grouped line has key `key`.
pub open spec fn counts_have(t: Seq<((Seq<char>, Seq<char>, Seq<char>, nat), nat)>, key: (Seq<char>, Seq<char>, Seq<char>, nat)) -> bool {
    exists|k: int| 0 <= k < t.len() && (#[trigger] t[k]).0 == key
}

/// Some match has key `key`.
pub open spec fn records_have(recs: Seq<MatchRecord>, key: (Seq<char>, Seq<char>, Seq<char>, nat)) -> bool {
    exists|j: int| 0 <= j < recs.len() && record_key(#[trigger] recs[j]) == key
}

/// File, text, record type and column.
pub type MatchKey = (Seq<char>, Seq<char>, Seq<char>, nat);

/// No two grouped lines share a key.
#[verifier::opaque]
pub open spec fn counts_distinct(t: Seq<(MatchKey, nat)>) -> bool {
    forall|a: int, b: int| 0 <= a < t.len() && 0 <= b < t.len() && a != b ==> (#[trigger] t[a]).0 != (#[trigger] t[b]).0
}

/// Each grouped line counts the distinct lines with a match of its key.
#[verifier::opaque]
pub open spec fn counts_exact(t: Seq<(MatchKey, nat)>, recs: Seq<MatchRecord>) -> bool {
    forall|k: int| 0 <= k < t.len() ==> (#[trigger] t[k]).1 == distinct_lines(recs, t[k].0) && records_have(recs, t[k].0)
}

/// Every match's key has a grouped line.
#[verifier::opaque]
pub open spec fn counts_cover(t: Seq<(MatchKey, nat)>, recs: Seq<MatchRecord>) -> bool {
    forall|j: int| 0 <= j < recs.len() ==> counts_have(t, record_key(#[trigger] recs[j]))
}

/// Each grouped line's key comes no later than the next one's.
#[verifier::opaque]
pub open spec fn counts_sorted(t: Seq<(MatchKey, nat)>) -> bool {
    forall|i: int| 0 <= i < t.len() - 1 ==> match_key_cmp(#[trigger] t[i].0, t[i + 1].0) <= 0
}

/// `t` groups `recs`: one line per distinct key, counting the distinct lines
/// with a match of that key, in ascending order of keys.
pub open spec fn match_table(t: Seq<(MatchKey, nat)>, recs: Seq<MatchRecord>) -> bool {
    &&& counts_distinct(t)
    &&& counts_exact(t, recs)
    &&& counts_cover(t, recs)
    &&& counts_sorted(t)
}

/// One step of the grouping: the match `x` either raises the count of its
/// line `k` (unless its line was already counted), or gets a new line at `k`.
pub open spec fn group_step(
    old_t: Seq<(MatchKey, nat)>,
    new_t: Seq<(MatchKey, nat)>,
    x: MatchKey,
    k: int,
    seen: bool,
) -> bool {
    ||| (0 <= k < old_t.len() && old_t[k].0 == x && new_t == (if seen {
        old_t
    } else {
        old_t.update(k, (x, old_t[k].1 + 1))
    }))
    ||| (0 <= k <= old_t.len() && (forall|b: int| 0 <= b < old_t.len() ==> (#[trigger] old_t[b]).0 != x)
        && new_t == old_t.insert(k, (x, 1nat))
        && (k > 0 ==> match_key_cmp(x, old_t[k - 1].0) >= 0)
        && (k < old_t.len() ==> match_key_cmp(x, old_t[k].0) < 0))
}

/// Whether a match has the key of a grouped line.
fn same_key(r: &MatchRecord, c: &MatchCount) -> (b: bool)
    ensures
        b == (record_key(*r) == counts_view(seq![*c])[0].0),
{
    r.column == c.column && r.file == c.file && r.text == c.text && r.rectype == c.rectype
}

/// Whether two matches share their key and line.
fn same_key_and_line(a: &MatchRecord, b: &MatchRecord) -> (r: bool)
    ensures
        r == (record_key(*a) == record_key(*b) && a.line_number == b.line_number),
{
    a.column == b.column && a.line_number == b.line_number && a.file == b.file && a.text == b.text
        && a.rectype == b.rectype
}

/// Compares the key of a match with the key of a grouped line.
fn compare_key(r: &MatchRecord, c: &MatchCount) -> (o: i8)
    ensures
        o == match_key_cmp(record_key(*r), counts_view(seq![*c])[0].0),
{
    let f = compare_text(&r.file, &c.file);
    if f != 0 {
        return f;
    }
    let t = compare_text(&r.text, &c.text);
    if t != 0 {
        return t;
    }
    let k = compare_text(&r.rectype, &c.rectype);
    if k != 0 {
        return k;
    }
    if r.column < c.column {
        -1
    } else if r.column > c.column {
        1
    } else {
        0
    }
}

proof fn lemma_step_distinct(old_t: Seq<(MatchKey, nat)>, new_t: Seq<(MatchKey, nat)>, x: MatchKey, k: int, seen: bool)
    requires
        counts_distinct(old_t),
        group_step(old_t, new_t, x, k, seen),
    ensures
        counts_distinct(new_t),
{
    reveal(counts_distinct);
    let found = 0 <= k < old_t.len() && old_t[k].0 == x;
    if !found {
        old_t.insert_ensures(k, (x, 1nat));
    }
    assert forall|a: int, b: int| 0 <= a < new_t.len() && 0 <= b < new_t.len() && a != b implies (#[trigger] new_t[a]).0
        != (#[trigger] new_t[b]).0 by {
        if found {
            assert(new_t[a].0 == old_t[a].0 && new_t[b].0 == old_t[b].0);
        } else {
            let a0 = if a < k { a } else { a - 1 };
            let b0 = if b < k { b } else { b - 1 };
            if a != k && b != k {
                assert(new_t[a] == old_t[a0] && new_t[b] == old_t[b0]);
            } else if a == k {
                assert(new_t[b] == old_t[b0]);
            } else {
                assert(new_t[a] == old_t[a0]);
            }
        }
    }
}

proof fn lemma_step_sorted(old_t: Seq<(MatchKey, nat)>, new_t: Seq<(MatchKey, nat)>, x: MatchKey, k: int, seen: bool)
    requires
        counts_sorted(old_t),
        group_step(old_t, new_t, x, k, seen),
    ensures
        counts_sorted(new_t),
{
    reveal(counts_sorted);
    let found = 0 <= k < old_t.len() && old_t[k].0 == x;
    if !found {
        old_t.insert_ensures(k, (x, 1nat));
    }
    assert forall|i: int| 0 <= i < new_t.len() - 1 implies match_key_cmp(#[trigger] new_t[i].0, new_t[i + 1].0) <= 0 by {
        if found {
            assert(new_t[i].0 == old_t[i].0 && new_t[i + 1].0 == old_t[i + 1].0);
        } else if i == k - 1 {
            lemma_match_key_cmp_antisym(x, old_t[i].0);
        } else if i == k {
        } else if i < k - 1 {
            assert(new_t[i] == old_t[i] && new_t[i + 1] == old_t[i + 1]);
        } else {
            assert(new_t[i] == old_t[i - 1] && new_t[i + 1] == old_t[i]);
        }
    }
}

proof fn lemma_step_cover(old_t: Seq<(MatchKey, nat)>, new_t: Seq<(MatchKey, nat)>, recs: Seq<MatchRecord>, x: MatchRecord, k: int, seen: bool)
    requires
        counts_cover(old_t, recs),
        group_step(old_t, new_t, record_key(x), k, seen),
    ensures
        counts_cover(new_t, recs.push(x)),
{
    reveal(counts_cover);
    let post = recs.push(x);
    let key = record_key(x);
    let found = 0 <= k < old_t.len() && old_t[k].0 == key;
    if !found {
        old_t.insert_ensures(k, (key, 1nat));
    }
    assert forall|j: int| 0 <= j < post.len() implies counts_have(new_t, record_key(#[trigger] post[j])) by {
        if j < recs.len() {
            assert(post[j] == recs[j]);
            assert(counts_have(old_t, record_key(recs[j])));
            let q = choose|q: int| 0 <= q < old_t.len() && (#[trigger] old_t[q]).0 == record_key(recs[j]);
            if found {
                assert(new_t[q].0 == old_t[q].0);
            } else if q < k {
                assert(new_t[q] == old_t[q]);
            } else {
                assert(new_t[q + 1] == old_t[q]);
            }
        } else {
            assert(post[j] == x);
            assert(new_t[k].0 == key);
        }
    }
}

#[verifier::rlimit(40)]
proof fn lemma_step_exact(old_t: Seq<(MatchKey, nat)>, new_t: Seq<(MatchKey, nat)>, recs: Seq<MatchRecord>, x: MatchRecord, k: int, seen: bool)
    requires
        counts_exact(old_t, recs),
        counts_cover(old_t, recs),
        counts_distinct(old_t),
        seen == line_seen(recs, record_key(x), x.line_number as nat),
        group_step(old_t, new_t, record_key(x), k, seen),
    ensures
        counts_exact(new_t, recs.push(x)),
{
    reveal(counts_exact);
    reveal(counts_cover);
    reveal(counts_distinct);
    let post = recs.push(x);
    let key = record_key(x);
    assert(post.drop_last() =~= recs);
    assert(post.last() == x);
    let found = 0 <= k < old_t.len() && old_t[k].0 == key;
    if !found && seen {
        let j = choose|j: int| 0 <= j < recs.len() && record_key(#[trigger] recs[j]) == key && recs[j].line_number == x.line_number as nat;
        assert(counts_have(old_t, record_key(recs[j])));
    }
    if !found {
        old_t.insert_ensures(k, (key, 1nat));
    }
    assert forall|q: int| 0 <= q < new_t.len() implies (#[trigger] new_t[q]).1 == distinct_lines(post, new_t[q].0)
        && records_have(post, new_t[q].0) by {
        if found {
            assert(new_t[q].0 == old_t[q].0);
            if q != k {
                assert(old_t[q].0 != old_t[k].0);
                assert(new_t[q] == old_t[q]);
            }
            let j = choose|j: int| 0 <= j < recs.len() && record_key(#[trigger] recs[j]) == old_t[q].0;
            assert(post[j] == recs[j]);
        } else if q == k {
            if distinct_lines(recs, key) > 0 {
                let j = lemma_distinct_lines_witness(recs, key);
                assert(counts_have(old_t, record_key(recs[j])));
            }
            assert(post[recs.len() as int] == x);
        } else {
            let q0 = if q < k { q } else { q - 1 };
            assert(new_t[q] == old_t[q0]);
            let j = choose|j: int| 0 <= j < recs.len() && record_key(#[trigger] recs[j]) == old_t[q0].0;
            assert(post[j] == recs[j]);
        }
    }
}

proof fn lemma_group_step(
    old_t: Seq<(MatchKey, nat)>,
    new_t: Seq<(MatchKey, nat)>,
    recs: Seq<MatchRecord>,
    x: MatchRecord,
    k: int,
    seen: bool,
)
    requires
        match_table(old_t, recs),
        seen == line_seen(recs, record_key(x), x.line_number as nat),
        group_step(old_t, new_t, record_key(x), k, seen),
    ensures
        match_table(new_t, recs.push(x)),
{
    lemma_step_distinct(old_t, new_t, record_key(x), k, seen);
    lemma_step_sorted(old_t, new_t, record_key(x), k, seen);
    lemma_step_cover(old_t, new_t, recs, x, k, seen);
    lemma_step_exact(old_t, new_t, recs, x, k, seen);
}

proof fn lemma_distinct_lines_witness(recs: Seq<MatchRecord>, key: (Seq<char>, Seq<char>, Seq<char>, nat)) -> (j: int)
    requires
        distinct_lines(recs, key) > 0,
    ensures
        0 <= j < recs.len(),
        record_key(recs[j]) == key,
    decreases recs.len(),
{
    if record_key(recs.last()) == key {
        recs.len() - 1
    } else {
        let j = lemma_distinct_lines_witness(recs.drop_last(), key);
        assert(recs.drop_last()[j] == recs[j]);
        j
    }
}

/// Groups matches by file, text, record type and column, counting the
/// distinct lines of each group, in ascending order of those keys.
pub fn group_matches(recs: &Vec<MatchRecord>) -> (t: Vec<MatchCount>)
    ensures
        match_table(counts_view(t@), recs@),
{
    let mut t: Vec<MatchCount> = Vec::new();
    let mut i: usize = 0;
    assert(counts_view(t@) =~= Seq::<((Seq<char>, Seq<char>, Seq<char>, nat), nat)>::empty());
    proof {
        reveal(counts_distinct);
        reveal(counts_exact);
        reveal(counts_cover);
        reveal(counts_sorted);
    }
    while i < recs.len()
        invariant
            i <= recs@.len(),
            match_table(counts_view(t@), recs@.subrange(0, i as int)),
            forall|q: int| 0 <= q < t@.len() ==> #[trigger] t@[q].n <= i,
        decreases recs@.len() - i,
    {
        let x = &recs[i];
        let ghost pre = recs@.subrange(0, i as int);
        let ghost old_t = counts_view(t@);
        let ghost key = record_key(*x);
        assert(recs@.subrange(0, i + 1) =~= pre.push(*x));
        let mut j: usize = 0;
        let mut seen = false;
        while j < i
            invariant_except_break
                !seen,
            invariant
                j <= i,
                i < recs@.len(),
                pre == recs@.subrange(0, i as int),
                *x == recs@[i as int],
                key == record_key(*x),
                forall|q: int| 0 <= q < j ==> !(record_key(#[trigger] pre[q]) == key && pre[q].line_number == x.line_number),
            ensures
                seen == line_seen(pre, key, x.line_number as nat),
            decreases i - j,
        {
            if same_key_and_line(&recs[j], x) {
                assert(pre[j as int] == recs@[j as int]);
                seen = true;
                break;
            }
            assert(pre[j as int] == recs@[j as int]);
            j = j + 1;
        }
        let mut k: usize = 0;
        let mut found = false;
        while k < t.len()
            invariant_except_break
                !found,
            invariant
                k <= t@.len(),
                old_t == counts_view(t@),
                key == record_key(*x),
                forall|b: int| 0 <= b < k ==> (#[trigger] old_t[b]).0 != key,
            ensures
                found ==> k < t@.len() && old_t[k as int].0 == key,
                !found ==> k == t@.len(),
            decreases t@.len() - k,
        {
            if same_key(x, &t[k]) {
                assert(counts_view(seq![t@[k as int]])[0] == old_t[k as int]);
                found = true;
                break;
            }
            assert(counts_view(seq![t@[k as int]])[0] == old_t[k as int]);
            k = k + 1;
        }
        if found {
            if !seen {
                let n = t[k].n;
                let c = MatchCount {
                    file: t[k].file.clone(),
                    text: t[k].text.clone(),
                    rectype: t[k].rectype.clone(),
                    column: t[k].column,
                    n: n + 1,
                };
                t.set(k, c);
                assert(counts_view(t@) =~= old_t.update(k as int, (key, old_t[k as int].1 + 1)));
            }
            proof {
                lemma_group_step(old_t, counts_view(t@), pre, *x, k as int, seen);
            }
        } else {
            let mut p: usize = 0;
            while p < t.len()
                invariant
                    p <= t@.len(),
                    old_t == counts_view(t@),
                    key == record_key(*x),
                    forall|q: int| 0 <= q < p ==> match_key_cmp(key, (#[trigger] old_t[q]).0) >= 0,
                ensures
                    p <= t@.len(),
                    forall|q: int| 0 <= q < p ==> match_key_cmp(key, (#[trigger] old_t[q]).0) >= 0,
                    p < t@.len() ==> match_key_cmp(key, old_t[p as int].0) < 0,
                decreases t@.len() - p,
            {
                let o = compare_key(x, &t[p]);
                assert(counts_view(seq![t@[p as int]])[0] == old_t[p as int]);
                if o < 0 {
                    break;
                }
                p = p + 1;
            }
            let c = MatchCount {
                file: x.file.clone(),
                text: x.text.clone(),
                rectype: x.rectype.clone(),
                column: x.column,
                n: 1,
            };
            t.insert(p, c);
            assert(counts_view(t@) =~= old_t.insert(p as int, (key, 1nat)));
            proof {
                if p > 0 {
                    assert(match_key_cmp(key, old_t[p - 1].0) >= 0);
                }
                lemma_group_step(old_t, counts_view(t@), pre, *x, p as int, seen);
            }
        }
        i = i + 1;
    }
    assert(recs@.subrange(0, i as int) =~= recs@);
    t
}

/// Line number and column of each match.
pub open spec fn record_spots(recs: Seq<MatchRecord>) -> Seq<(nat, nat)> {
    Seq::new(recs.len(), |k: int| (recs[k].line_number as nat, recs[k].column as nat))
}

/// Line number and end column of every occurrence of a literal, line by
/// line, numbering lines from 1.
pub open spec fn literal_spots(lines: Seq<String>, pat: Seq<u8>) -> Seq<(nat, nat)>
    decreases lines.len(),
{
    if lines.len() == 0 {
        Seq::empty()
    } else {
        let ends = literal_ends(encode_utf8(lines.last()@), pat, 0);
        literal_spots(lines.drop_last(), pat) + Seq::new(
            ends.len(),
            |k: int| (lines.len() as nat, ends[k] as nat),
        )
    }
}

/// Line number, start and end byte offsets of each match.
pub open spec fn record_triples(recs: Seq<MatchRecord>) -> Seq<(nat, int, int)> {
    Seq::new(
        recs.len(),
        |k: int|
            (
                recs[k].line_number as nat,
                recs[k].column - encode_utf8(recs[k].text@).len(),
                recs[k].column as int,
            ),
    )
}

/// Line number, start and end of every match of a regular expression, line
/// by line, numbering lines from 1.
pub open spec fn regex_spots(lines: Seq<String>, pattern: Seq<char>) -> Seq<(nat, int, int)>
    decreases lines.len(),
{
    if lines.len() == 0 {
        Seq::empty()
    } else {
        let spans = regex_spans_of(pattern, lines.last()@);
        regex_spots(lines.drop_last(), pattern) + Seq::new(
            spans.len(),
            |k: int| (lines.len() as nat, spans[k].0, spans[k].1),
        )
    }
}

/// A match of the search over `lines`: on a line that exists, and found there.
pub open spec fn record_fits(r: MatchRecord, lines: Seq<String>, file: Seq<char>, rc: RecColumn) -> bool {
    1 <= r.line_number <= lines.len() && record_on_line(
        r,
        encode_utf8(lines[r.line_number - 1]@),
        file,
        r.line_number as nat,
        rc,
    )
}

/// What a search over `lines` found so far.
pub open spec fn search_found(
    recs: Seq<MatchRecord>,
    lines: Seq<String>,
    file: Seq<char>,
    pattern: Pattern,
    rc: RecColumn,
) -> bool {
    &&& forall|k: int| 0 <= k < recs.len() ==> record_fits(#[trigger] recs[k], lines, file, rc)
    &&& forall|k: int| 0 < k < recs.len() ==> recs[k - 1].line_number <= (#[trigger] recs[k]).line_number
    &&& pattern matches Pattern::Literal(lit) ==> record_spots(recs) == literal_spots(
        lines,
        encode_utf8(lit@),
    ) && forall|k: int| 0 <= k < recs.len() ==> (#[trigger] recs[k]).text@ == lit@
    &&& pattern matches Pattern::Regex(p) ==> record_triples(recs) == regex_spots(lines, p.text())
}

/// Searches every line of one file, numbering lines from 1: all matches in
/// order, and their grouping by file, text, record type and column. Fails
/// on the first line whose record type cannot be read.
pub fn search_lines(file: &String, lines: &Vec<String>, pattern: &Pattern, rc: &RecColumn) -> (r: Result<
    (Vec<MatchRecord>, Vec<MatchCount>),
    FreqError,
>)
    requires
        rc.start >= 1,
    ensures
        r is Ok <==> forall|i: int| 0 <= i < lines@.len() ==> rectype_ok(encode_utf8(#[trigger] lines@[i]@), *rc),
        r matches Err(e) ==> exists|i: int|
            0 <= i < lines@.len() && !rectype_ok(encode_utf8(#[trigger] lines@[i]@), *rc) && (forall|q: int|
                0 <= q < i ==> rectype_ok(encode_utf8(#[trigger] lines@[q]@), *rc)) && error_view(e)
                == rectype_error(encode_utf8(lines@[i]@), *rc),
        r matches Ok((recs, t)) ==> match_table(counts_view(t@), recs@) && search_found(
            recs@,
            lines@,
            file@,
            *pattern,
            *rc,
        ),
{
    let mut recs: Vec<MatchRecord> = Vec::new();
    let mut i: usize = 0;
    proof {
        assert(lines@.subrange(0, 0).len() == 0);
        assert(record_spots(recs@) =~= Seq::<(nat, nat)>::empty());
        assert(record_triples(recs@) =~= Seq::<(nat, int, int)>::empty());
    }
    while i < lines.len()
        invariant
            i <= lines@.len(),
            rc.start >= 1,
            forall|q: int| 0 <= q < i ==> rectype_ok(encode_utf8(#[trigger] lines@[q]@), *rc),
            search_found(recs@, lines@.subrange(0, i as int), file@, *pattern, *rc),
        decreases lines@.len() - i,
    {
        let found = locate_line(file, &lines[i], i + 1, pattern, rc);
        let found = match found {
            Ok(v) => v,
            Err(e) => {
                return Err(e);
            },
        };
        let ghost found_v = found@;
        let ghost before = recs@;
        let ghost pre = lines@.subrange(0, i as int);
        let ghost post = lines@.subrange(0, i + 1);
        let mut found = found;
        recs.append(&mut found);
        proof {
            assert(post.drop_last() =~= pre);
            assert(post.last() == lines@[i as int]);
            assert forall|k: int| 0 <= k < recs@.len() implies record_fits(#[trigger] recs@[k], post, file@, *rc) by {
                if k >= before.len() {
                    assert(recs@[k] == found_v[k - before.len()]);
                } else {
                    assert(recs@[k] == before[k]);
                    assert(record_fits(before[k], pre, file@, *rc));
                    assert(post[before[k].line_number - 1] == pre[before[k].line_number - 1]);
                }
            }
            assert forall|q: int| 0 < q < recs@.len() implies recs@[q - 1].line_number <= (
            #[trigger] recs@[q]).line_number by {
                if q > before.len() {
                    assert(recs@[q] == found_v[q - before.len()]);
                    assert(recs@[q - 1] == found_v[q - 1 - before.len()]);
                } else if q == before.len() {
                    assert(recs@[q] == found_v[0]);
                    assert(recs@[q - 1] == before[q - 1]);
                    assert(record_fits(before[q - 1], pre, file@, *rc));
                } else {
                    assert(recs@[q] == before[q]);
                    assert(recs@[q - 1] == before[q - 1]);
                }
            }
            match pattern {
                Pattern::Literal(lit) => {
                    let ends = literal_ends(encode_utf8(lines@[i as int]@), encode_utf8(lit@), 0);
                    assert(record_spots(found_v) =~= Seq::new(
                        ends.len(),
                        |k: int| (post.len() as nat, ends[k] as nat),
                    ));
                    assert(record_spots(recs@) =~= record_spots(before) + record_spots(found_v));
                    assert forall|k: int| 0 <= k < recs@.len() implies (#[trigger] recs@[k]).text@ == lit@ by {
                        if k >= before.len() {
                            assert(recs@[k] == found_v[k - before.len()]);
                        } else {
                            assert(recs@[k] == before[k]);
                        }
                    }
                },
                Pattern::Regex(p) => {
                    let spans = regex_spans_of(p.text(), lines@[i as int]@);
                    assert(record_triples(found_v) =~= Seq::new(
                        spans.len(),
                        |k: int| (post.len() as nat, spans[k].0, spans[k].1),
                    ));
                    assert(record_triples(recs@) =~= record_triples(before) + record_triples(found_v));
                },
            }
        }
        i = i + 1;
    }
    assert(lines@.subrange(0, i as int) =~= lines@);
    let t = group_matches(&recs);
    Ok((recs, t))
}

} // verus!
