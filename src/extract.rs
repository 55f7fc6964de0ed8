//! Per-line work: slicing fields out of a raw line, the record-type gate,
//! the weight field, and their composition into one extracted row.

use vstd::prelude::*;

verus! {

use vstd::utf8::*;
use crate::text::{decode_field, field_text, text_agrees, utf8_text};

/// A field: 1-based start column and width, in bytes.
#[derive(Debug, Clone, Copy, PartialEq, Eq, Structural)]
pub struct Variable {
    pub start: usize,
    pub width: usize,
}

/// The record-type column; with a `value`, only lines whose column holds
/// exactly that text are kept.
#[derive(Debug, Clone)]
pub struct RecType {
    pub value: Option<String>,
    pub start: usize,
    pub width: usize,
}

/// The weight column, and the divisor applied once to each summed frequency.
#[derive(Debug, Clone, Copy, PartialEq, Eq, Structural)]
pub struct Weight {
    pub start: usize,
    pub width: usize,
    pub divisor: i16,
}

/// Everything a frequency run is configured with.
#[derive(Debug, Clone)]
pub struct MyArgs {
    pub file_path: String,
    pub vars: Vec<Variable>,
    pub rec: RecType,
    pub weight: Option<Weight>,
    pub q: bool,
    pub v: bool,
    pub nf: bool,
    pub c: Option<Vec<String>>,
    pub o: Option<Vec<String>>,
}

/// The failures of extraction.
#[derive(Debug, Clone, PartialEq, Eq)]
pub enum FreqError {
    /// A field reaches past the end of the line.
    FieldOutOfRange { line_len: usize, start: usize, width: usize },
    /// A field's bytes are neither ASCII nor Windows-1252.
    EncodingError { bytes: Vec<u8>, start: usize, width: usize },
    /// The weight field is not a number.
    WeightParseError { start: usize, text: Vec<u8> },
    /// An odd count of start/width numbers was given.
    UnbalancedVariableSpec,
    /// No variables were given.
    MissingRequiredArgument,
    /// A weight, brought to the run's decimal scale, does not fit in a `u64`.
    WeightOutOfRange,
}

/// The failures, with their details as plain values.
pub enum ErrorView {
    OutOfRange(nat, nat, nat),
    Encoding(Seq<u8>, nat, nat),
    WeightParse(nat, Seq<u8>),
    Unbalanced,
    Missing,
    WeightRange,
}

/// A failure as plain values.
pub open spec fn error_view(e: FreqError) -> ErrorView {
    match e {
        FreqError::FieldOutOfRange { line_len, start, width } => ErrorView::OutOfRange(
            line_len as nat,
            start as nat,
            width as nat,
        ),
        FreqError::EncodingError { bytes, start, width } => ErrorView::Encoding(
            bytes@,
            start as nat,
            width as nat,
        ),
        FreqError::WeightParseError { start, text } => ErrorView::WeightParse(start as nat, text@),
        FreqError::UnbalancedVariableSpec => ErrorView::Unbalanced,
        FreqError::MissingRequiredArgument => ErrorView::Missing,
        FreqError::WeightOutOfRange => ErrorView::WeightRange,
    }
}

/// The field `[start-1, start+width-1)` lies inside a line of `len` bytes.
pub open spec fn in_range(len: nat, start: nat, width: nat) -> bool {
    start + width <= len + 1
}

/// The bytes of the field `[start-1, start+width-1)`.
pub open spec fn field_bytes(line: Seq<u8>, start: nat, width: nat) -> Seq<u8> {
    line.subrange(start - 1, start - 1 + width)
}

/// Every configured start column is positive.
pub open spec fn starts_positive(args: MyArgs) -> bool {
    &&& forall|k: int| 0 <= k < args.vars@.len() ==> #[trigger] args.vars@[k].start >= 1
    &&& args.rec.start >= 1
    &&& (args.weight matches Some(w) ==> w.start >= 1)
}

/// Copies the bytes of a field that lies inside the line.
pub(crate) fn copy_field(line: &[u8], start: usize, width: usize) -> (r: Vec<u8>)
    requires
        start >= 1,
        in_range(line@.len(), start as nat, width as nat),
    ensures
        r@ == field_bytes(line@, start as nat, width as nat),
{
    let mut r: Vec<u8> = Vec::new();
    let mut i: usize = 0;
    while i < width
        invariant
            i <= width,
            start >= 1,
            start + width <= line@.len() + 1,
            r@ == line@.subrange(start - 1, start - 1 + i),
            line@.len() == line.len(),
        decreases width - i,
    {
        r.push(line[start - 1 + i]);
        assert(r@ =~= line@.subrange(start - 1, start - 1 + i + 1));
        i = i + 1;
    }
    r
}

/// Checks that a field lies inside the line.
pub(crate) fn check_range(line: &[u8], start: usize, width: usize) -> (r: Result<(), FreqError>)
    requires
        start >= 1,
    ensures
        r is Ok <==> in_range(line@.len(), start as nat, width as nat),
        r matches Err(e) ==> error_view(e) == ErrorView::OutOfRange(
            line@.len(),
            start as nat,
            width as nat,
        ),
{
    if width <= line.len() && start - 1 <= line.len() - width {
        Ok(())
    } else {
        Err(FreqError::FieldOutOfRange { line_len: line.len(), start, width })
    }
}

/// The decoded text of a variable's field.
pub fn extract_field(line: &[u8], v: &Variable) -> (r: Result<String, FreqError>)
    requires
        v.start >= 1,
    ensures
        r is Ok <==> in_range(line@.len(), v.start as nat, v.width as nat),
        r matches Ok(s) ==> s@ == field_text(field_bytes(line@, v.start as nat, v.width as nat)),
        r matches Ok(s) ==> text_agrees(field_bytes(line@, v.start as nat, v.width as nat), s@),
        r matches Err(e) ==> error_view(e) == ErrorView::OutOfRange(
            line@.len(),
            v.start as nat,
            v.width as nat,
        ),
{
    check_range(line, v.start, v.width)?;
    let bytes = copy_field(line, v.start, v.width);
    match decode_field(bytes.as_slice()) {
        Some(s) => Ok(s),
        None => Err(FreqError::EncodingError { bytes, start: v.start, width: v.width }),
    }
}

/// Whether the record-type gate keeps a line whose field is in range.
pub open spec fn rec_matches(line: Seq<u8>, rec: RecType) -> bool {
    match rec.value {
        None => true,
        Some(value) => {
            let b = field_bytes(line, rec.start as nat, rec.width as nat);
            valid_utf8(b) && decode_utf8(b) == value@
        },
    }
}

/// Whether the record-type gate has a field to read on this line.
pub open spec fn rec_in_range(line: Seq<u8>, rec: RecType) -> bool {
    rec.value is Some ==> in_range(line.len(), rec.start as nat, rec.width as nat)
}

/// The record-type gate: `Ok(true)` to keep the line, `Ok(false)` to skip it.
pub fn record_kept(line: &[u8], rec: &RecType) -> (r: Result<bool, FreqError>)
    requires
        rec.start >= 1,
    ensures
        r is Ok <==> rec_in_range(line@, *rec),
        r matches Ok(k) ==> k == rec_matches(line@, *rec),
        r matches Err(e) ==> error_view(e) == ErrorView::OutOfRange(
            line@.len(),
            rec.start as nat,
            rec.width as nat,
        ),
{
    match &rec.value {
        None => Ok(true),
        Some(value) => {
            check_range(line, rec.start, rec.width)?;
            let bytes = copy_field(line, rec.start, rec.width);
            match utf8_text(bytes.as_slice()) {
                Some(text) => Ok(text == *value),
                None => Ok(false),
            }
        },
    }
}

/// A weight as an exact decimal: `mantissa / 10^scale`.
#[derive(Debug, Clone, Copy, PartialEq, Eq, Structural)]
pub struct DecimalWeight {
    pub mantissa: u64,
    pub scale: usize,
}

/// Whether a byte is a decimal digit.
pub open spec fn is_digit(c: u8) -> bool {
    0x30 <= c <= 0x39
}

/// How many decimal points the bytes hold.
pub open spec fn dot_count(b: Seq<u8>) -> nat
    decreases b.len(),
{
    if b.len() == 0 {
        0
    } else {
        dot_count(b.drop_last()) + if b.last() == 0x2E {
            1nat
        } else {
            0
        }
    }
}

/// How many digits the bytes hold.
pub open spec fn digit_count(b: Seq<u8>) -> nat
    decreases b.len(),
{
    if b.len() == 0 {
        0
    } else {
        digit_count(b.drop_last()) + if is_digit(b.last()) {
            1nat
        } else {
            0
        }
    }
}

/// The number that the digits spell, the decimal point left out.
pub open spec fn dec_mantissa(b: Seq<u8>) -> nat
    decreases b.len(),
{
    if b.len() == 0 {
        0
    } else if b.last() == 0x2E {
        dec_mantissa(b.drop_last())
    } else {
        dec_mantissa(b.drop_last()) * 10 + (b.last() - 0x30) as nat
    }
}

/// How many digits follow the decimal point.
pub open spec fn dec_scale(b: Seq<u8>) -> nat
    decreases b.len(),
{
    if b.len() == 0 || b.last() == 0x2E {
        0
    } else if dot_count(b.drop_last()) > 0 {
        dec_scale(b.drop_last()) + 1
    } else {
        0
    }
}

/// Whether the bytes hold a weight: digits with at most one decimal point,
/// at least one digit, and digits that fit in a `u64`.
pub open spec fn weight_text_ok(b: Seq<u8>) -> bool {
    &&& forall|i: int| 0 <= i < b.len() ==> is_digit(#[trigger] b[i]) || b[i] == 0x2E
    &&& dot_count(b) <= 1
    &&& digit_count(b) >= 1
    &&& dec_mantissa(b) <= u64::MAX
}

/// A prefix of the bytes spells at most what the whole does.
proof fn lemma_mantissa_prefix_le(b: Seq<u8>, n: int)
    requires
        0 <= n <= b.len(),
    ensures
        dec_mantissa(b.subrange(0, n)) <= dec_mantissa(b),
        dot_count(b.subrange(0, n)) <= dot_count(b),
    decreases b.len() - n,
{
    if n < b.len() {
        lemma_mantissa_prefix_le(b, n + 1);
        assert(b.subrange(0, n + 1).drop_last() =~= b.subrange(0, n));
    } else {
        assert(b.subrange(0, n) =~= b);
    }
}

/// Reads a weight field: decimal digits with at most one decimal point.
pub fn parse_weight_text(b: &[u8]) -> (r: Option<DecimalWeight>)
    ensures
        r is Some <==> weight_text_ok(b@),
        r matches Some(w) ==> w.mantissa == dec_mantissa(b@) && w.scale == dec_scale(b@),
{
    let mut acc: u64 = 0;
    let mut dots: usize = 0;
    let mut digits: usize = 0;
    let mut scale: usize = 0;
    let mut i: usize = 0;
    while i < b.len()
        invariant
            i <= b@.len(),
            forall|k: int| 0 <= k < i ==> is_digit(#[trigger] b@[k]) || b@[k] == 0x2E,
            acc == dec_mantissa(b@.subrange(0, i as int)),
            dots == dot_count(b@.subrange(0, i as int)),
            dots <= 1,
            digits == digit_count(b@.subrange(0, i as int)),
            digits <= i,
            scale == dec_scale(b@.subrange(0, i as int)),
            scale <= i,
        decreases b@.len() - i,
    {
        let d = b[i];
        let ghost pre = b@.subrange(0, i as int);
        let ghost post = b@.subrange(0, i + 1);
        assert(post.drop_last() =~= pre);
        assert(post.last() == d);
        if d == 0x2E {
            if dots == 1 {
                proof {
                    lemma_mantissa_prefix_le(b@, i + 1);
                }
                return None;
            }
            dots = 1;
            scale = 0;
        } else {
            if d < 0x30 || d > 0x39 {
                assert(!is_digit(b@[i as int]) && b@[i as int] != 0x2E);
                return None;
            }
            if acc > (u64::MAX - (d - 0x30) as u64) / 10 {
                let ghost dv: int = (d - 0x30) as int;
                let ghost a: int = acc as int;
                assert(a * 10 + dv > u64::MAX) by (nonlinear_arith)
                    requires
                        a > (u64::MAX - dv) / 10,
                        0 <= dv <= 9,
                ;
                proof {
                    lemma_mantissa_prefix_le(b@, i + 1);
                }
                return None;
            }
            assert(acc * 10 + (d - 0x30) as u64 <= u64::MAX) by (nonlinear_arith)
                requires
                    acc <= (u64::MAX - (d - 0x30) as u64) / 10,
                    d >= 0x30,
                    d <= 0x39,
            ;
            acc = acc * 10 + (d - 0x30) as u64;
            digits = digits + 1;
            if dots > 0 {
                scale = scale + 1;
            } else {
                scale = 0;
            }
        }
        i = i + 1;
    }
    assert(b@.subrange(0, i as int) =~= b@);
    if digits == 0 {
        return None;
    }
    Some(DecimalWeight { mantissa: acc, scale })
}

/// The weight of a line whose weight field reads, as (mantissa, scale):
/// 1 when unweighted.
pub open spec fn weight_value(line: Seq<u8>, weight: Option<Weight>) -> (nat, nat) {
    match weight {
        None => (1, 0),
        Some(w) => {
            let b = field_bytes(line, w.start as nat, w.width as nat);
            (dec_mantissa(b), dec_scale(b))
        },
    }
}

/// Reads a line's weight: 1 when no weight column is configured.
pub fn parse_weight(line: &[u8], weight: &Option<Weight>) -> (r: Result<DecimalWeight, FreqError>)
    requires
        weight matches Some(w) ==> w.start >= 1,
    ensures
        r is Ok <==> (weight matches Some(w) ==> in_range(line@.len(), w.start as nat, w.width as nat)
            && weight_text_ok(field_bytes(line@, w.start as nat, w.width as nat))),
        r matches Ok(n) ==> (n.mantissa as nat, n.scale as nat) == weight_value(line@, *weight),
        r matches Err(e) ==> weight matches Some(w) && error_view(e) == (if in_range(
            line@.len(),
            w.start as nat,
            w.width as nat,
        ) {
            ErrorView::WeightParse(w.start as nat, field_bytes(line@, w.start as nat, w.width as nat))
        } else {
            ErrorView::OutOfRange(line@.len(), w.start as nat, w.width as nat)
        }),
{
    match weight {
        None => Ok(DecimalWeight { mantissa: 1, scale: 0 }),
        Some(w) => {
            check_range(line, w.start, w.width)?;
            let bytes = copy_field(line, w.start, w.width);
            match parse_weight_text(bytes.as_slice()) {
                Some(n) => Ok(n),
                None => Err(FreqError::WeightParseError { start: w.start, text: bytes }),
            }
        },
    }
}

/// The texts of a sequence of strings.
pub open spec fn strings_view(v: Seq<String>) -> Seq<Seq<char>> {
    Seq::new(v.len(), |k: int| v[k]@)
}

/// The decoded fields of every variable, in order.
pub open spec fn row_values(line: Seq<u8>, vars: Seq<Variable>) -> Seq<Seq<char>> {
    Seq::new(
        vars.len(),
        |k: int| field_text(field_bytes(line, vars[k].start as nat, vars[k].width as nat)),
    )
}

/// The index of the first variable from `k` on whose field is out of range,
/// or the count of variables when there is none.
pub open spec fn first_bad_var(len: nat, vars: Seq<Variable>, k: int) -> int
    decreases vars.len() - k,
{
    if k >= vars.len() || k < 0 {
        vars.len() as int
    } else if !in_range(len, vars[k].start as nat, vars[k].width as nat) {
        k
    } else {
        first_bad_var(len, vars, k + 1)
    }
}

/// What the processing of one line comes to.
pub enum LineOutcome {
    Skip,
    Row(Seq<Seq<char>>, (nat, nat)),
    Fail(ErrorView),
}

/// The outcome of a line: the record-type gate first, then the weight, then
/// the variables in order; the first failure met decides.
pub open spec fn line_outcome(line: Seq<u8>, args: MyArgs) -> LineOutcome {
    let len = line.len();
    if !rec_in_range(line, args.rec) {
        LineOutcome::Fail(ErrorView::OutOfRange(len, args.rec.start as nat, args.rec.width as nat))
    } else if !rec_matches(line, args.rec) {
        LineOutcome::Skip
    } else if args.weight is Some && !in_range(
        len,
        args.weight->0.start as nat,
        args.weight->0.width as nat,
    ) {
        LineOutcome::Fail(
            ErrorView::OutOfRange(len, args.weight->0.start as nat, args.weight->0.width as nat),
        )
    } else if args.weight is Some && !weight_text_ok(
        field_bytes(line, args.weight->0.start as nat, args.weight->0.width as nat),
    ) {
        LineOutcome::Fail(
            ErrorView::WeightParse(
                args.weight->0.start as nat,
                field_bytes(line, args.weight->0.start as nat, args.weight->0.width as nat),
            ),
        )
    } else if first_bad_var(len, args.vars@, 0) < args.vars@.len() {
        let v = args.vars@[first_bad_var(len, args.vars@, 0)];
        LineOutcome::Fail(ErrorView::OutOfRange(len, v.start as nat, v.width as nat))
    } else {
        LineOutcome::Row(row_values(line, args.vars@), weight_value(line, args.weight))
    }
}

/// Processes one line: `Ok(None)` when the record-type gate skips it,
/// `Ok(Some((values, weight)))` with one decoded value per variable.
pub fn process_line(line: Vec<u8>, args: &MyArgs) -> (r: Result<Option<(Vec<String>, DecimalWeight)>, FreqError>)
    requires
        starts_positive(*args),
    ensures
        r == Ok::<Option<(Vec<String>, DecimalWeight)>, FreqError>(None) <==> line_outcome(line@, *args)
            == LineOutcome::Skip,
        r matches Ok(Some(p)) ==> line_outcome(line@, *args) == LineOutcome::Row(
            strings_view(p.0@),
            (p.1.mantissa as nat, p.1.scale as nat),
        ),
        r matches Err(e) ==> line_outcome(line@, *args) == LineOutcome::Fail(error_view(e)),
        r matches Ok(Some(p)) ==> p.0@.len() == args.vars@.len() && forall|k: int|
            0 <= k < args.vars@.len() ==> text_agrees(
                field_bytes(line@, args.vars@[k].start as nat, args.vars@[k].width as nat),
                #[trigger] p.0@[k]@,
            ),
{
    let l = line.as_slice();
    if !record_kept(l, &args.rec)? {
        return Ok(None);
    }
    let weight = parse_weight(l, &args.weight)?;
    let mut ret_vec: Vec<String> = Vec::new();
    let mut i: usize = 0;
    while i < args.vars.len()
        invariant
            i <= args.vars@.len(),
            starts_positive(*args),
            l@ == line@,
            rec_in_range(l@, args.rec),
            rec_matches(l@, args.rec),
            args.weight matches Some(w) ==> in_range(l@.len(), w.start as nat, w.width as nat)
                && weight_text_ok(field_bytes(l@, w.start as nat, w.width as nat)),
            first_bad_var(l@.len(), args.vars@, 0) == first_bad_var(l@.len(), args.vars@, i as int),
            ret_vec@.len() == i,
            forall|k: int|
                0 <= k < i ==> text_agrees(
                    field_bytes(l@, args.vars@[k].start as nat, args.vars@[k].width as nat),
                    #[trigger] ret_vec@[k]@,
                ),
            strings_view(ret_vec@) == row_values(l@, args.vars@).subrange(0, i as int),
        decreases args.vars@.len() - i,
    {
        let v = &args.vars[i];
        assert(args.vars@[i as int].start >= 1);
        let s = extract_field(l, v)?;
        let ghost prev = ret_vec@;
        ret_vec.push(s);
        assert(ret_vec@[i as int]@ == row_values(l@, args.vars@)[i as int]);
        assert forall|k: int| 0 <= k < i implies #[trigger] ret_vec@[k]@ == row_values(
            l@,
            args.vars@,
        )[k] by {
            assert(ret_vec@[k] == prev[k]);
            assert(strings_view(prev)[k] == prev[k]@);
            assert(row_values(l@, args.vars@).subrange(0, i as int)[k] == row_values(l@, args.vars@)[k]);
        }
        assert(strings_view(ret_vec@) =~= row_values(l@, args.vars@).subrange(0, i + 1));
        i = i + 1;
    }
    assert(row_values(l@, args.vars@).subrange(0, i as int) =~= row_values(l@, args.vars@));
    Ok(Some((ret_vec, weight)))
}

/// The record-type configuration.
pub fn define_rt(value: Option<String>, start: usize, width: usize) -> (r: RecType)
    ensures
        r.value == value,
        r.start == start,
        r.width == width,
{
    RecType { value, start, width }
}

/// Pairs up start and width numbers into variables, in order.
pub fn define_vars(values: &Vec<usize>) -> (r: Result<Vec<Variable>, FreqError>)
    ensures
        values@.len() == 0 ==> r == Err::<Vec<Variable>, FreqError>(FreqError::MissingRequiredArgument),
        values@.len() > 0 && values@.len() % 2 == 1 ==> r == Err::<Vec<Variable>, FreqError>(
            FreqError::UnbalancedVariableSpec,
        ),
        values@.len() > 0 && values@.len() % 2 == 0 ==> r is Ok,
        r matches Ok(v) ==> v@.len() * 2 == values@.len() && forall|k: int|
            0 <= k < v@.len() ==> #[trigger] v@[k] == (Variable {
                start: values@[2 * k],
                width: values@[2 * k + 1],
            }),
{
    if values.len() == 0 {
        return Err(FreqError::MissingRequiredArgument);
    }
    if values.len() % 2 != 0 {
        return Err(FreqError::UnbalancedVariableSpec);
    }
    let mut vars: Vec<Variable> = Vec::new();
    let mut i: usize = 0;
    while i < values.len() / 2
        invariant
            values@.len() % 2 == 0,
            i <= values@.len() / 2,
            vars@.len() == i,
            forall|k: int|
                0 <= k < i ==> #[trigger] vars@[k] == (Variable {
                    start: values@[2 * k],
                    width: values@[2 * k + 1],
                }),
        decreases values@.len() / 2 - i,
    {
        vars.push(Variable { start: values[2 * i], width: values[2 * i + 1] });
        i = i + 1;
    }
    Ok(vars)
}

} // verus!
