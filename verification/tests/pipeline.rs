use logstats::report::{render_header, render_report, render_row};
use logstats::stats::{merge_partials, process_file, Skip, StatsMap};

fn gz(text: &str) -> Vec<u8> {
    let mut enc = flate2::write::GzEncoder::new(Vec::new(), flate2::Compression::default());
    std::io::Write::write_all(&mut enc, text.as_bytes()).unwrap();
    enc.finish().unwrap()
}

/// The mean column as the program derives it: the double-precision sum of
/// squared values over the 64-bit sum, rendered as text.
fn mean_text(sum: u64, values: &[u64]) -> Vec<u8> {
    let sq: f64 = values.iter().map(|v| (*v as f64).powi(2)).sum();
    (sq / (sum as f64)).to_string().into_bytes()
}

fn full_report(maps: Vec<StatsMap>) -> Vec<u8> {
    let combined = merge_partials(maps);
    let mut means: Vec<Vec<u8>> = Vec::new();
    for e in combined.entries.iter() {
        means.push(mean_text(e.sum, &e.values));
    }
    render_report(&combined, &means)
}

#[test]
fn two_file_scenario() {
    let a = process_file(&gz("alpha x 10 y\nalpha x 5 y\n"));
    let b = process_file(&gz("beta x 3 y\n"));
    assert!(a.readable && b.readable);
    assert!(a.skips.is_empty() && b.skips.is_empty());
    let report = full_report(vec![a.map, b.map]);
    let alpha_mean = (100.0f64 + 25.0) / 15.0;
    let beta_mean = 9.0f64 / 3.0;
    let expected = format!(
        "project,views_sum,processed_views_mean\nalpha,15,{}\nbeta,3,{}\n",
        alpha_mean, beta_mean
    );
    assert_eq!(String::from_utf8(report).unwrap(), expected);
    assert!(expected.contains("alpha,15,8.333333333333334"));
    assert!(expected.contains("beta,3,3"));
}

#[test]
fn file_order_does_not_change_sums() {
    let a = process_file(&gz("alpha x 10 y\nalpha x 5 y\n"));
    let b = process_file(&gz("beta x 3 y\nalpha x 1 y\n"));
    let m1 = merge_partials(vec![a.map, b.map]);
    let a2 = process_file(&gz("alpha x 10 y\nalpha x 5 y\n"));
    let b2 = process_file(&gz("beta x 3 y\nalpha x 1 y\n"));
    let m2 = merge_partials(vec![b2.map, a2.map]);
    assert_eq!(m1.entries.len(), m2.entries.len());
    for (x, y) in m1.entries.iter().zip(m2.entries.iter()) {
        assert_eq!(x.key, y.key);
        assert_eq!(x.sum, y.sum);
    }
}

#[test]
fn malformed_row_is_skipped() {
    // One well-formed row, then a row with only two fields: the decoder
    // rejects the short record, the good row still counts.
    let r = process_file(&gz("alpha x 10 y\nfoo bar\n"));
    assert!(r.readable);
    assert_eq!(r.map.entries.len(), 1);
    assert_eq!(r.map.entries[0].key, b"alpha".to_vec());
    assert_eq!(r.map.entries[0].sum, 10);
    assert_eq!(r.skips.len(), 1);
    assert!(matches!(r.skips[0], Skip::Malformed));
}

#[test]
fn short_first_record_sets_expectations() {
    // The decoder takes the first record's width as the file's: a two-field
    // first row is reported as incomplete, and the four-field row after it
    // no longer decodes.
    let r = process_file(&gz("a b\nc d e f\n"));
    assert!(r.readable);
    assert_eq!(r.map.entries.len(), 0);
    assert_eq!(r.skips.len(), 2);
    match &r.skips[0] {
        Skip::Incomplete { fields } => {
            assert_eq!(fields, &vec![b"a".to_vec(), b"b".to_vec()]);
        },
        other => panic!("expected an incomplete-record skip, got {:?}", skip_name(other)),
    }
    assert!(matches!(r.skips[1], Skip::Malformed));
}

fn skip_name(s: &Skip) -> &'static str {
    match s {
        Skip::Unreadable => "unreadable",
        Skip::Malformed => "malformed",
        Skip::Incomplete { .. } => "incomplete",
        Skip::Invalid { .. } => "invalid",
    }
}

#[test]
fn invalid_value_is_skipped() {
    let r = process_file(&gz("alpha x abc y\nbeta x 4 y\n"));
    assert_eq!(r.map.entries.len(), 1);
    assert_eq!(r.map.entries[0].key, b"beta".to_vec());
    match &r.skips[0] {
        Skip::Invalid { text } => assert_eq!(text, &b"abc".to_vec()),
        other => panic!("expected an invalid-value skip, got {:?}", skip_name(other)),
    }
}

#[test]
fn whitespace_around_value_is_trimmed() {
    let r = process_file(&gz("alpha x \u{00A0}12\u{00A0} y\n"));
    assert_eq!(r.map.entries.len(), 1);
    assert_eq!(r.map.entries[0].sum, 12);
}

#[test]
fn corrupt_stream_is_unreadable() {
    let r = process_file(&vec![1u8, 2, 3, 4]);
    assert!(!r.readable);
    assert_eq!(r.map.entries.len(), 0);
    assert_eq!(r.skips.len(), 1);
    assert!(matches!(r.skips[0], Skip::Unreadable));
}

#[test]
fn truncated_stream_is_unreadable() {
    let mut good = gz("alpha x 10 y\n");
    good.truncate(good.len() / 2);
    let r = process_file(&good);
    assert!(!r.readable);
    assert_eq!(r.map.entries.len(), 0);
}

#[test]
fn empty_input_reports_only_header() {
    let combined = merge_partials(vec![]);
    assert_eq!(combined.entries.len(), 0);
    let report = render_report(&combined, &Vec::new());
    assert_eq!(
        String::from_utf8(report).unwrap(),
        "project,views_sum,processed_views_mean\n"
    );
    assert_eq!(render_header(), b"project,views_sum,processed_views_mean\n".to_vec());
}

#[test]
fn zero_sum_key_renders_nan_mean() {
    let r = process_file(&gz("alpha x 0 y\n"));
    assert_eq!(r.map.entries[0].sum, 0);
    let report = full_report(vec![r.map]);
    let expected = format!(
        "project,views_sum,processed_views_mean\nalpha,0,{}\n",
        0.0f64 / 0.0f64
    );
    assert_eq!(String::from_utf8(report).unwrap(), expected);
    assert!(expected.contains("NaN"));
}

#[test]
fn report_rows_sorted_by_key() {
    let r = process_file(&gz("zeta x 1 y\nalpha x 2 y\nmid x 3 y\n"));
    let report = full_report(vec![r.map]);
    let text = String::from_utf8(report).unwrap();
    let lines: Vec<&str> = text.lines().collect();
    assert!(lines[1].starts_with("alpha,"));
    assert!(lines[2].starts_with("mid,"));
    assert!(lines[3].starts_with("zeta,"));
}

#[test]
fn keys_needing_quotes_are_quoted() {
    let r = process_file(&gz("a,b x 3 y\n"));
    assert_eq!(r.map.entries[0].key, b"a,b".to_vec());
    let line = render_row(&r.map.entries[0].key, 3, &b"3".to_vec());
    assert_eq!(String::from_utf8(line).unwrap(), "\"a,b\",3,3\n");
}

#[test]
fn extra_row_never_decreases_sum() {
    let base = process_file(&gz("alpha x 10 y\nbeta x 2 y\n"));
    let more = process_file(&gz("alpha x 10 y\nbeta x 2 y\nalpha x 4 y\n"));
    for e in base.map.entries.iter() {
        let grown = more.map.entries.iter().find(|x| x.key == e.key).unwrap();
        assert!(grown.sum >= e.sum);
    }
    assert_eq!(more.map.entries[0].sum, 14);
}

#[test]
fn pipeline_is_idempotent() {
    let inputs = ["alpha x 10 y\nalpha x 5 y\n", "beta x 3 y\nalpha x 7 y\n"];
    let run = || {
        let maps: Vec<StatsMap> = inputs.iter().map(|t| process_file(&gz(t)).map).collect();
        full_report(maps)
    };
    let first = run();
    let second = run();
    assert_eq!(first, second);
}
