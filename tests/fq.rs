use fixed_freq::aggregate::{aggregate, FreqRow};
use fixed_freq::extract::{
    define_rt, define_vars, extract_field, DecimalWeight, parse_weight, process_line, record_kept, FreqError,
    MyArgs, RecType, Variable, Weight,
};
use fixed_freq::freq::run_freq_quick;
use fixed_freq::locate::{group_matches, locate_line, search_lines, Pattern, RecColumn};
use fixed_freq::order::sort_rows;
use fixed_freq::regex_pattern::RegexPattern;
use fixed_freq::render::{render_line, render_values};

const V0: Variable = Variable { start: 2, width: 9 };
const V1: Variable = Variable { start: 1, width: 1 };
const V2: Variable = Variable { start: 1, width: 2 };
const V3: Variable = Variable { start: 3, width: 2 };

fn r1() -> RecType {
    RecType { value: None, start: 1, width: 1 }
}

const W1: Weight = Weight { start: 2, width: 1, divisor: 1 };

fn args_with(vars: Vec<Variable>, rec: RecType, weight: Option<Weight>) -> MyArgs {
    MyArgs {
        file_path: String::from("No file should be required for this part"),
        vars,
        rec,
        weight,
        q: false,
        v: false,
        nf: false,
        c: None,
        o: None,
    }
}

fn unit() -> DecimalWeight {
    DecimalWeight { mantissa: 1, scale: 0 }
}

fn fake_line() -> Vec<u8> {
    vec![
        102, 97, 107, 101, 32, 100, 97, 116, 97, 32, 115, 116, 114, 105, 110, 103, 32, 116, 104,
        97, 116, 32, 115, 104, 111, 117, 108, 100, 32, 119, 111, 114, 107, 32, 102, 111, 114, 32,
        97, 110, 121, 116, 104, 105, 110, 103,
    ]
}

#[test]
fn test_extended_ascii() {
    let line_with_extended_ascii: Vec<u8> = vec![102, 161, 83, 97, 110, 32, 74, 111, 115, 233];
    let fake_args_1 = args_with(vec![V0], r1(), None);
    let res_1 = process_line(line_with_extended_ascii.clone(), &fake_args_1);
    assert!(matches!(res_1, Ok(Some(_))), "Should have some data from processing line.");
    if let Ok(Some(res)) = res_1 {
        let encoded_to = res.0[0].clone();
        let should_encode_to = "¡San José";
        assert_eq!(encoded_to.bytes().len(), should_encode_to.bytes().len());
        assert_eq!(encoded_to, should_encode_to);
    }
}

#[test]
fn line_processing() {
    let line = fake_line();
    let r2 = RecType { value: Some(String::from("d")), start: 5, width: 1 };
    let fake_args_1 = args_with(vec![V1], r1(), None);
    let fake_args_2 = args_with(vec![V2], r1(), None);
    let fake_args_3 = args_with(vec![V2, V3], r1(), None);
    let fake_args_4 = args_with(vec![V2, V3], r2, None);

    let res_1 = process_line(line.clone(), &fake_args_1);
    assert_eq!(res_1, Ok(Some((vec![String::from("f")], unit()))));

    let res_2 = process_line(line.clone(), &fake_args_2);
    assert_eq!(res_2, Ok(Some((vec![String::from("fa")], unit()))));

    let res_3 = process_line(line.clone(), &fake_args_3);
    assert_eq!(res_3, Ok(Some((vec![String::from("fa"), String::from("ke")], unit()))));

    let res_4 = process_line(line.clone(), &fake_args_4);
    assert_eq!(res_4, Ok(None));
}

#[test]
fn weight_not_a_number_is_an_error() {
    let fake_args_5 = args_with(vec![V1], r1(), Some(W1));
    let res = process_line(fake_line(), &fake_args_5);
    assert_eq!(res, Err(FreqError::WeightParseError { start: 2, text: vec![97] }));
}

#[test]
fn field_past_line_end_is_out_of_range() {
    let line: Vec<u8> = b"abc".to_vec();
    let res = extract_field(&line, &Variable { start: 3, width: 2 });
    assert_eq!(res, Err(FreqError::FieldOutOfRange { line_len: 3, start: 3, width: 2 }));
    let res = extract_field(&line, &Variable { start: 5, width: 1 });
    assert_eq!(res, Err(FreqError::FieldOutOfRange { line_len: 3, start: 5, width: 1 }));
    // the last byte is still in range
    assert_eq!(extract_field(&line, &Variable { start: 2, width: 2 }), Ok(String::from("bc")));
    assert_eq!(extract_field(&line, &Variable { start: 1, width: 3 }), Ok(String::from("abc")));
}

#[test]
fn out_of_range_line_fails_processing() {
    let args = args_with(vec![V1, Variable { start: 4, width: 2 }], r1(), None);
    let res = process_line(b"abcd".to_vec(), &args);
    assert_eq!(res, Err(FreqError::FieldOutOfRange { line_len: 4, start: 4, width: 2 }));
}

#[test]
fn ascii_field_matches_utf8() {
    let line: Vec<u8> = b"Hello, world ~!".to_vec();
    let got = extract_field(&line, &Variable { start: 1, width: line.len() }).unwrap();
    assert_eq!(got.as_bytes(), &line[..]);
    assert_eq!(got, String::from_utf8(line.clone()).unwrap());
}

#[test]
fn windows_1252_decoding() {
    let line: Vec<u8> = vec![0x66, 0xA1, 0x53, 0x61, 0x6E, 0x20, 0x4A, 0x6F, 0x73, 0xE9];
    let got = extract_field(&line, &Variable { start: 1, width: 10 }).unwrap();
    assert_eq!(got, "f¡San José");
    // 0x80..0x9F are the codepage's own characters, not C1 controls
    let quotes: Vec<u8> = vec![0x80, 0x93, 0x94];
    let got = extract_field(&quotes, &Variable { start: 1, width: 3 }).unwrap();
    assert_eq!(got, "€\u{201C}\u{201D}");
}

#[test]
fn record_type_filter_skips_other_types() {
    let line: Vec<u8> = b"h123".to_vec();
    let rec = RecType { value: Some(String::from("d")), start: 1, width: 1 };
    assert_eq!(record_kept(&line, &rec), Ok(false));
    let args = args_with(vec![V3], rec.clone(), None);
    assert_eq!(process_line(line.clone(), &args), Ok(None));
    let d_line: Vec<u8> = b"d123".to_vec();
    assert_eq!(record_kept(&d_line, &rec), Ok(true));
    assert_eq!(process_line(d_line, &args), Ok(Some((vec![String::from("23")], unit()))));
    let none = RecType { value: None, start: 9, width: 9 };
    assert_eq!(record_kept(&line, &none), Ok(true));
    let far = RecType { value: Some(String::from("d")), start: 4, width: 2 };
    assert_eq!(
        record_kept(&line, &far),
        Err(FreqError::FieldOutOfRange { line_len: 4, start: 4, width: 2 })
    );
}

#[test]
fn weight_parsing() {
    let line: Vec<u8> = b"x0042y".to_vec();
    let w = Some(Weight { start: 2, width: 4, divisor: 1 });
    assert_eq!(parse_weight(&line, &w), Ok(DecimalWeight { mantissa: 42, scale: 0 }));
    assert_eq!(parse_weight(&line, &None), Ok(unit()));
    let dec: Vec<u8> = b"x02.5".to_vec();
    let dw = Some(Weight { start: 2, width: 4, divisor: 1 });
    assert_eq!(parse_weight(&dec, &dw), Ok(DecimalWeight { mantissa: 25, scale: 1 }));
    let two_dots: Vec<u8> = b"x1.2.".to_vec();
    assert_eq!(
        parse_weight(&two_dots, &dw),
        Err(FreqError::WeightParseError { start: 2, text: b"1.2.".to_vec() })
    );
    let dot_only: Vec<u8> = b"x.".to_vec();
    let one_wide = Some(Weight { start: 2, width: 1, divisor: 1 });
    assert_eq!(
        parse_weight(&dot_only, &one_wide),
        Err(FreqError::WeightParseError { start: 2, text: b".".to_vec() })
    );
    let bad = Some(Weight { start: 2, width: 5, divisor: 1 });
    assert_eq!(
        parse_weight(&line, &bad),
        Err(FreqError::WeightParseError { start: 2, text: b"0042y".to_vec() })
    );
}

fn freq_of(row: &FreqRow) -> f64 {
    row.total as f64 / (row.divisor as f64 * 10f64.powi(row.scale as i32))
}

#[test]
fn weighted_aggregation() {
    let v = vec![String::from("V")];
    let rows = vec![(v.clone(), 2u64), (v.clone(), 3u64)];
    let t = aggregate(&rows, 1, 0);
    assert_eq!(t.len(), 1);
    assert_eq!(t[0].values, v);
    assert_eq!(t[0].total, 5);
    assert_eq!(freq_of(&t[0]), 5.0);
    let t2 = aggregate(&rows, 2, 0);
    assert_eq!(t2.len(), 1);
    assert_eq!(freq_of(&t2[0]), 2.5);
}

#[test]
fn aggregation_groups_values_and_weights() {
    let a = vec![String::from("a")];
    let b = vec![String::from("b")];
    let rows = vec![(a.clone(), 2u64), (b.clone(), 1), (a.clone(), 2), (a.clone(), 7)];
    let t = sort_rows(&aggregate(&rows, 1, 0));
    assert_eq!(t.len(), 2);
    assert_eq!((t[0].values.clone(), t[0].total), (a, 11));
    assert_eq!((t[1].values.clone(), t[1].total), (b, 1));
    assert!(aggregate(&Vec::new(), 1, 0).is_empty());
}

fn row(vals: &[&str]) -> FreqRow {
    FreqRow { values: vals.iter().map(|s| s.to_string()).collect(), total: 1, divisor: 1, scale: 0 }
}

#[test]
fn sorting_is_by_every_column() {
    let t = vec![row(&["b", "1"]), row(&["a", "2"]), row(&["a", "1"])];
    let s = sort_rows(&t);
    let keys: Vec<Vec<String>> = s.iter().map(|r| r.values.clone()).collect();
    assert_eq!(
        keys,
        vec![
            vec![String::from("a"), String::from("1")],
            vec![String::from("a"), String::from("2")],
            vec![String::from("b"), String::from("1")],
        ]
    );
}

fn scenario_lines() -> Vec<Vec<u8>> {
    vec![b"1A".to_vec(), b"1B".to_vec(), b"1A".to_vec()]
}

#[test]
fn scenario_unweighted_frequencies() {
    let args = args_with(vec![Variable { start: 2, width: 1 }], r1(), None);
    let (t, n) = run_freq_quick(&scenario_lines(), &args).unwrap();
    assert_eq!(n, 3);
    assert_eq!(t.len(), 2);
    assert_eq!((t[0].values.clone(), freq_of(&t[0])), (vec![String::from("A")], 2.0));
    assert_eq!((t[1].values.clone(), freq_of(&t[1])), (vec![String::from("B")], 1.0));
}

#[test]
fn lines_examined_include_skipped_ones() {
    let rec = RecType { value: Some(String::from("d")), start: 1, width: 1 };
    let args = args_with(vec![Variable { start: 2, width: 1 }], rec, None);
    let lines = vec![b"xA".to_vec(), b"dB".to_vec(), b"xC".to_vec()];
    let (t, n) = run_freq_quick(&lines, &args).unwrap();
    assert_eq!(n, 3);
    assert_eq!(t.len(), 1);
    assert_eq!(t[0].values, vec![String::from("B")]);
}

#[test]
fn scenario_weighted_frequencies() {
    let w = Weight { start: 1, width: 1, divisor: 1 };
    let args = args_with(vec![Variable { start: 2, width: 1 }], r1(), Some(w));
    let (t, n) = run_freq_quick(&scenario_lines(), &args).unwrap();
    assert_eq!(n, 3);
    assert_eq!(t.len(), 2);
    assert_eq!((t[0].values.clone(), freq_of(&t[0])), (vec![String::from("A")], 2.0));
    assert_eq!((t[1].values.clone(), freq_of(&t[1])), (vec![String::from("B")], 1.0));
}

#[test]
fn scenario_no_frequency_output() {
    let args = args_with(vec![Variable { start: 2, width: 1 }], r1(), None);
    let (t, _) = run_freq_quick(&scenario_lines(), &args).unwrap();
    let out: Vec<String> =
        t.iter().map(|r| render_line(&r.values, false, true, "\t", "2.0")).collect();
    assert_eq!(out, vec![String::from("A"), String::from("B")]);
    let with_freq = render_line(&t[0].values, false, false, "\t", "2.0");
    assert_eq!(with_freq, "A\t2.0");
}

#[test]
fn rendering_quotes_text_columns() {
    let vals = vec![String::from("fa"), String::from("ke")];
    assert_eq!(render_values(&vals, true, "\t"), "'fa'\t'ke'");
    assert_eq!(render_values(&vals, false, ","), "fa,ke");
}

#[test]
fn run_stops_at_first_failure() {
    let args = args_with(vec![Variable { start: 2, width: 2 }], r1(), None);
    let lines = vec![b"1AB".to_vec(), b"1A".to_vec(), b"1".to_vec()];
    assert_eq!(
        run_freq_quick(&lines, &args),
        Err(FreqError::FieldOutOfRange { line_len: 2, start: 2, width: 2 })
    );
}

#[test]
fn scenario_literal_search() {
    let rc = RecColumn { start: 1, width: 1, ignore: false };
    let file = String::from("f.dat");
    let found = locate_line(
        &file,
        &String::from("ababab"),
        1,
        &Pattern::Literal(String::from("ab")),
        &rc,
    )
    .unwrap();
    let cols: Vec<usize> = found.iter().map(|m| m.column).collect();
    assert_eq!(cols, vec![2, 4, 6]);
    assert!(found.iter().all(|m| m.text == "ab" && m.rectype == "a" && m.line_number == 1));
    let ignored = RecColumn { start: 1, width: 1, ignore: true };
    let (recs, t2) = search_lines(
        &file,
        &vec![String::from("ababab")],
        &Pattern::Literal(String::from("ab")),
        &ignored,
    )
    .unwrap();
    assert!(recs.iter().all(|m| m.rectype.is_empty()));
    let rows: Vec<(String, String, usize, usize)> =
        t2.iter().map(|c| (c.text.clone(), c.rectype.clone(), c.column, c.n)).collect();
    assert_eq!(
        rows,
        vec![
            (String::from("ab"), String::new(), 2, 1),
            (String::from("ab"), String::new(), 4, 1),
            (String::from("ab"), String::new(), 6, 1),
        ]
    );
    let t = group_matches(&found);
    let grouped: Vec<(usize, usize)> = t.iter().map(|c| (c.column, c.n)).collect();
    assert_eq!(grouped, vec![(2, 1), (4, 1), (6, 1)]);
}

#[test]
fn regex_search_and_distinct_lines() {
    let rc = RecColumn { start: 1, width: 1, ignore: true };
    let file = String::from("g.dat");
    let re = RegexPattern::new("[0-9]+").unwrap();
    assert_eq!(re.as_str(), "[0-9]+");
    assert!(RegexPattern::new("(").is_none());
    let lines = vec![String::from("a12b7"), String::from("x12"), String::from("zz")];
    let (recs, t) = search_lines(&file, &lines, &Pattern::Regex(re), &rc).unwrap();
    let found: Vec<(String, usize, usize)> =
        recs.iter().map(|m| (m.text.clone(), m.column, m.line_number)).collect();
    assert_eq!(
        found,
        vec![(String::from("12"), 3, 1), (String::from("7"), 5, 1), (String::from("12"), 3, 2)]
    );
    let grouped: Vec<(String, usize, usize)> =
        t.iter().map(|c| (c.text.clone(), c.column, c.n)).collect();
    assert_eq!(grouped, vec![(String::from("12"), 3, 2), (String::from("7"), 5, 1)]);
}

#[test]
fn search_rectype_out_of_range() {
    let rc = RecColumn { start: 3, width: 2, ignore: false };
    let res = search_lines(
        &String::from("h.dat"),
        &vec![String::from("abcd"), String::from("abc")],
        &Pattern::Literal(String::from("b")),
        &rc,
    );
    assert_eq!(res, Err(FreqError::FieldOutOfRange { line_len: 3, start: 3, width: 2 }));
}

#[test]
fn variables_from_numbers() {
    let vars = define_vars(&vec![4, 1, 5, 2]).unwrap();
    assert_eq!(vars, vec![Variable { start: 4, width: 1 }, Variable { start: 5, width: 2 }]);
    assert_eq!(define_vars(&vec![4, 1, 5]), Err(FreqError::UnbalancedVariableSpec));
    assert_eq!(define_vars(&vec![]), Err(FreqError::MissingRequiredArgument));
    let rt = define_rt(Some(String::from("h")), 2, 3);
    assert_eq!((rt.value, rt.start, rt.width), (Some(String::from("h")), 2, 3));
}

#[test]
fn weight_limits() {
    let max: Vec<u8> = b"18446744073709551615".to_vec();
    let w = Some(Weight { start: 1, width: 20, divisor: 1 });
    assert_eq!(parse_weight(&max, &w), Ok(DecimalWeight { mantissa: u64::MAX, scale: 0 }));
    let over: Vec<u8> = b"18446744073709551616".to_vec();
    assert_eq!(
        parse_weight(&over, &w),
        Err(FreqError::WeightParseError { start: 1, text: over.clone() })
    );
    let empty = Some(Weight { start: 1, width: 0, divisor: 1 });
    assert_eq!(
        parse_weight(&max, &empty),
        Err(FreqError::WeightParseError { start: 1, text: Vec::new() })
    );
}

#[test]
fn empty_input_gives_empty_table() {
    let args = args_with(vec![V1], r1(), None);
    let (t, n) = run_freq_quick(&Vec::new(), &args).unwrap();
    assert!(t.is_empty());
    assert_eq!(n, 0);
}

#[test]
fn heavy_weights_do_not_overflow() {
    let v = vec![String::from("x")];
    let rows = vec![(v.clone(), u64::MAX), (v.clone(), u64::MAX), (v.clone(), 1)];
    let t = aggregate(&rows, 1, 0);
    assert_eq!(t[0].total, 2 * (u64::MAX as u128) + 1);
}

#[test]
fn decimal_weights_sum_exactly() {
    let w = Weight { start: 1, width: 3, divisor: 1 };
    let args = args_with(vec![Variable { start: 4, width: 1 }], r1(), Some(w));
    let lines = vec![b"2.5A".to_vec(), b"001B".to_vec(), b"1.0A".to_vec()];
    let (t, n) = run_freq_quick(&lines, &args).unwrap();
    assert_eq!(n, 3);
    assert_eq!(t.len(), 2);
    assert_eq!((t[0].total, t[0].scale), (35, 1));
    assert_eq!(freq_of(&t[0]), 3.5);
    assert_eq!(freq_of(&t[1]), 1.0);
}

#[test]
fn weight_too_large_after_scaling() {
    let w = Weight { start: 1, width: 20, divisor: 1 };
    let args = args_with(vec![Variable { start: 21, width: 1 }], r1(), Some(w));
    let lines = vec![b"18446744073709551615A".to_vec(), b"000000000000000001.5A".to_vec()];
    assert_eq!(run_freq_quick(&lines, &args), Err(FreqError::WeightOutOfRange));
}
