use logstats::order::{bytes_eq, bytes_lt};
use logstats::report::is_gz_name;
use logstats::stats::{merge_partials, StatsMap};
use logstats::value::{parse_u64, trim_bytes, u64_to_dec};

fn b(s: &str) -> Vec<u8> {
    s.as_bytes().to_vec()
}

#[test]
fn parse_plain_number() {
    assert_eq!(parse_u64(&b("10")), Some(10));
    assert_eq!(parse_u64(&b("0")), Some(0));
    assert_eq!(parse_u64(&b("007")), Some(7));
}

#[test]
fn parse_plus_sign() {
    assert_eq!(parse_u64(&b("+5")), Some(5));
    assert_eq!(parse_u64(&b("++1")), None);
    assert_eq!(parse_u64(&b("+")), None);
}

#[test]
fn parse_rejects_garbage() {
    assert_eq!(parse_u64(&b("")), None);
    assert_eq!(parse_u64(&b("abc")), None);
    assert_eq!(parse_u64(&b("-1")), None);
    assert_eq!(parse_u64(&b("1 0")), None);
    assert_eq!(parse_u64(&b("12x")), None);
}

#[test]
fn parse_u64_range() {
    assert_eq!(parse_u64(&b("18446744073709551615")), Some(u64::MAX));
    assert_eq!(parse_u64(&b("18446744073709551616")), None);
    assert_eq!(parse_u64(&b("99999999999999999999999")), None);
}

#[test]
fn trim_ascii_whitespace() {
    assert_eq!(trim_bytes(&b(" 10 ")), b("10"));
    assert_eq!(trim_bytes(&b("\t10\r\n")), b("10"));
    assert_eq!(trim_bytes(&b("10")), b("10"));
    assert_eq!(trim_bytes(&b("  ")), b(""));
}

#[test]
fn trim_unicode_whitespace() {
    assert_eq!(trim_bytes(&b("\u{00A0}7\u{2028}")), b("7"));
    assert_eq!(trim_bytes(&b("\u{3000}\u{1680}8\u{205F}")), b("8"));
    // Matches str::trim on the same text.
    let s = "\u{00A0}\u{2000}x y\u{85}\u{2029}";
    assert_eq!(trim_bytes(&b(s)), s.trim().as_bytes().to_vec());
}

#[test]
fn decimal_rendering() {
    assert_eq!(u64_to_dec(0), b("0"));
    assert_eq!(u64_to_dec(7), b("7"));
    assert_eq!(u64_to_dec(10), b("10"));
    assert_eq!(u64_to_dec(305), b("305"));
    assert_eq!(u64_to_dec(u64::MAX), b("18446744073709551615"));
}

#[test]
fn byte_order() {
    assert!(bytes_lt(&b("a"), &b("b")));
    assert!(bytes_lt(&b("a"), &b("ab")));
    assert!(!bytes_lt(&b("b"), &b("a")));
    assert!(!bytes_lt(&b("a"), &b("a")));
    assert!(bytes_eq(&b("abc"), &b("abc")));
    assert!(!bytes_eq(&b("abc"), &b("abd")));
}

#[test]
fn gz_name_filter() {
    assert!(is_gz_name(&b("a.gz")));
    assert!(is_gz_name(&b("a.tar.gz")));
    assert!(is_gz_name(&b("..gz")));
    assert!(!is_gz_name(&b(".gz")));
    assert!(!is_gz_name(&b("gz")));
    assert!(!is_gz_name(&b("a.txt")));
    assert!(!is_gz_name(&b("agz")));
}

#[test]
fn accumulate_sorted_entries() {
    let mut m = StatsMap::new();
    m.add_row(&b("beta"), 3);
    m.add_row(&b("alpha"), 1);
    m.add_row(&b("alpha"), 2);
    assert_eq!(m.entries.len(), 2);
    assert_eq!(m.entries[0].key, b("alpha"));
    assert_eq!(m.entries[0].sum, 3);
    assert_eq!(m.entries[0].values, vec![1, 2]);
    assert_eq!(m.entries[1].key, b("beta"));
    assert_eq!(m.entries[1].sum, 3);
}

#[test]
fn accumulate_wraps_at_u64_max() {
    let mut m = StatsMap::new();
    m.add_row(&b("k"), u64::MAX);
    m.add_row(&b("k"), 2);
    assert_eq!(m.entries[0].sum, 1);
    assert_eq!(m.entries[0].values, vec![u64::MAX, 2]);
}

#[test]
fn merge_concatenates_per_key() {
    let mut p1 = StatsMap::new();
    p1.add_row(&b("alpha"), 10);
    p1.add_row(&b("gamma"), 1);
    let mut p2 = StatsMap::new();
    p2.add_row(&b("alpha"), 5);
    let m = merge_partials(vec![p1, p2]);
    assert_eq!(m.entries.len(), 2);
    assert_eq!(m.entries[0].key, b("alpha"));
    assert_eq!(m.entries[0].sum, 15);
    assert_eq!(m.entries[0].values, vec![10, 5]);
    assert_eq!(m.entries[1].key, b("gamma"));
    assert_eq!(m.entries[1].sum, 1);
}

#[test]
fn merge_order_does_not_change_sums() {
    let mut p1 = StatsMap::new();
    p1.add_row(&b("alpha"), 10);
    let mut p2 = StatsMap::new();
    p2.add_row(&b("alpha"), 5);
    p2.add_row(&b("beta"), 7);
    let m12 = merge_partials(vec![p1, p2]);
    let mut q1 = StatsMap::new();
    q1.add_row(&b("alpha"), 10);
    let mut q2 = StatsMap::new();
    q2.add_row(&b("alpha"), 5);
    q2.add_row(&b("beta"), 7);
    let m21 = merge_partials(vec![q2, q1]);
    assert_eq!(m12.entries.len(), m21.entries.len());
    for (a, c) in m12.entries.iter().zip(m21.entries.iter()) {
        assert_eq!(a.key, c.key);
        assert_eq!(a.sum, c.sum);
    }
}
