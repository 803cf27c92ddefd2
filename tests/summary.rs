use onebrc::bytes::find_byte_in;
use onebrc::report::{report_results, summarize};
use onebrc::scan::scan_range;
use onebrc::split::split_ranges;
use onebrc::stat::Stat;
use onebrc::table::{compare_bytes, Table};
use onebrc::temp::parse_temp;
use onebrc::Error;

fn run(input: &str, workers: usize) -> String {
    String::from_utf8(summarize(input.as_bytes(), workers).unwrap()).unwrap()
}

#[test]
fn two_stations_hamburg_bulawayo() {
    let input = "Hamburg;12.0\nHamburg;-5.1\nBulawayo;8.9\n";
    assert_eq!(run(input, 1), "{Bulawayo=8.9/8.9/8.9, Hamburg=-5.1/3.5/12.0}");
}

#[test]
fn repeated_zero_readings() {
    assert_eq!(run("A;0.0\nA;0.0\nA;0.0\n", 1), "{A=0.0/0.0/0.0}");
}

#[test]
fn extremes_cancel_to_zero_mean() {
    let input = "Zed;-99.9\nAlp;99.9\nZed;99.9\nAlp;-99.9\n";
    assert_eq!(run(input, 1), "{Alp=-99.9/0.0/99.9, Zed=-99.9/0.0/99.9}");
}

#[test]
fn ten_readings_mean() {
    let mut input = String::new();
    for i in 1..=10 {
        input.push_str(&format!("X;{}.0\n", i));
    }
    assert_eq!(run(&input, 1), "{X=1.0/5.5/10.0}");
}

#[test]
fn three_stations_interleaved() {
    let input = "a;1.0\nb;2.0\na;3.0\nc;4.0\nb;5.0\na;6.0\n";
    assert_eq!(run(input, 1), "{a=1.0/3.3/6.0, b=2.0/3.5/5.0, c=4.0/4.0/4.0}");
}

#[test]
fn single_record() {
    assert_eq!(run("Oslo;-3.4\n", 1), "{Oslo=-3.4/-3.4/-3.4}");
}

#[test]
fn last_record_without_newline_is_accepted() {
    assert_eq!(run("A;1.0\nB;2.5", 1), "{A=1.0/1.0/1.0, B=2.5/2.5/2.5}");
}

#[test]
fn worker_counts_agree() {
    let input = "Hamburg;12.0\nBulawayo;8.9\nPalembang;38.8\nSt. John's;15.2\nCracow;12.6\nHamburg;-1.5\nBulawayo;-0.3\nCracow;1.1\n";
    let one = run(input, 1);
    for k in [2, 3, 4, 8, 16, 64] {
        assert_eq!(run(input, k), one);
    }
}

#[test]
fn record_straddling_quarter_boundary() {
    let input = "Alpha;10.0\nBeta;-20.5\nGamma;30.1\nDelta;5.5\nAlpha;-1.0\n";
    let q = input.len() / 4;
    assert_ne!(input.as_bytes()[q - 1], b'\n');
    assert_eq!(run(input, 4), run(input, 1));
}

#[test]
fn empty_input_has_no_stations() {
    assert_eq!(run("", 4), "{}");
}

#[test]
fn missing_separator_is_malformed() {
    assert_eq!(summarize(b"A1.0\n", 1), Err(Error::MalformedRecord { offset: 0 }));
}

#[test]
fn bad_temperature_reports_record_offset() {
    assert_eq!(summarize(b"A;1.0\nB;1.00\n", 1), Err(Error::MalformedRecord { offset: 6 }));
    assert_eq!(summarize(b"A;1.0\nB;1;0\n", 1), Err(Error::MalformedRecord { offset: 6 }));
    assert_eq!(summarize(b";1.0\n", 1), Err(Error::MalformedRecord { offset: 0 }));
    assert_eq!(summarize(b"A;1.0\n\n", 1), Err(Error::MalformedRecord { offset: 6 }));
}

#[test]
fn name_of_hundred_bytes_is_accepted_and_longer_rejected() {
    let ok = format!("{};1.0\n", "n".repeat(100));
    assert!(summarize(ok.as_bytes(), 1).is_ok());
    let bad = format!("{};1.0\n", "n".repeat(101));
    assert_eq!(summarize(bad.as_bytes(), 1), Err(Error::MalformedRecord { offset: 0 }));
}

#[test]
fn temperature_grammar() {
    assert_eq!(parse_temp(b"12.3"), Some(123));
    assert_eq!(parse_temp(b"-99.9"), Some(-999));
    assert_eq!(parse_temp(b"0.0"), Some(0));
    assert_eq!(parse_temp(b"-5.1"), Some(-51));
    assert_eq!(parse_temp(b"5"), None);
    assert_eq!(parse_temp(b"123.4"), None);
    assert_eq!(parse_temp(b"1.23"), None);
    assert_eq!(parse_temp(b"+1.2"), None);
    assert_eq!(parse_temp(b"-"), None);
}

#[test]
fn mean_rounds_half_away_from_zero() {
    let mut s = Stat::new(-5);
    s.update(0);
    assert_eq!(s.mean(), -3);
    let mut p = Stat::new(5);
    p.update(0);
    assert_eq!(p.mean(), 3);
    let mut q = Stat::new(10);
    q.update(30);
    q.update(60);
    assert_eq!(q.mean(), 33);
}

#[test]
fn merge_combines_statistics() {
    let mut a = Stat::new(10);
    a.update(-20);
    let mut b = Stat::new(50);
    b.update(5);
    a.merge(&b);
    assert_eq!(a, Stat { min: -20, max: 50, sum: 45, count: 4 });
}

#[test]
fn mean_lies_between_min_and_max() {
    let mut s = Stat::new(-999);
    s.update(999);
    s.update(999);
    let m = s.mean();
    assert!(s.min <= m && m <= s.max);
    assert_eq!(m, 333);
}

#[test]
fn ranges_are_line_aligned() {
    let data = b"a;1.0\nb;2.0\nc;3.0\n";
    assert_eq!(split_ranges(data, 3), vec![(0, 12), (12, 18)]);
    assert_eq!(split_ranges(data, 1), vec![(0, 18)]);
    assert_eq!(split_ranges(b"a;1.0\n", 8), vec![(0, 6)]);
    assert_eq!(split_ranges(b"", 4), Vec::<(usize, usize)>::new());
    assert_eq!(split_ranges(b"abcdefgh", 2), vec![(0, 8)]);
}

#[test]
fn find_byte_gives_absolute_index() {
    assert_eq!(find_byte_in(b"ab\ncd\n", 0, 6, b'\n'), Some(2));
    assert_eq!(find_byte_in(b"ab\ncd\n", 3, 6, b'\n'), Some(5));
    assert_eq!(find_byte_in(b"ab\ncd\n", 3, 5, b'\n'), None);
}

#[test]
fn compare_is_byte_lexicographic() {
    assert_eq!(compare_bytes(b"abc", b"abd"), -1);
    assert_eq!(compare_bytes(b"ab", b"abc"), -1);
    assert_eq!(compare_bytes(b"b", b"abc"), 1);
    assert_eq!(compare_bytes(b"abc", b"abc"), 0);
    assert_eq!(compare_bytes(b"Z", b"a"), -1);
}

#[test]
fn table_keeps_names_sorted_and_counts_records() {
    let data = b"b;1.0\na;2.0\nc;3.0\na;4.0\n";
    let t: Table = scan_range(data, 0, data.len()).unwrap();
    assert_eq!(t.len(), 3);
    let names: Vec<&[u8]> = t.names.iter().map(|n| n.as_slice()).collect();
    assert_eq!(names, vec![&b"a"[..], &b"b"[..], &b"c"[..]]);
    let total: u64 = t.stats.iter().map(|s| s.count).sum();
    assert_eq!(total, 4);
    assert_eq!(t.stats[0], Stat { min: 20, max: 40, sum: 60, count: 2 });
}

#[test]
fn doubling_input_doubles_counts_and_keeps_extremes() {
    let input = "a;1.0\nb;-2.0\na;3.5\n";
    let doubled = format!("{}{}", input, input);
    let t1 = scan_range(input.as_bytes(), 0, input.len()).unwrap();
    let t2 = scan_range(doubled.as_bytes(), 0, doubled.len()).unwrap();
    for i in 0..t1.len() {
        assert_eq!(t2.names[i], t1.names[i]);
        assert_eq!(t2.stats[i].min, t1.stats[i].min);
        assert_eq!(t2.stats[i].max, t1.stats[i].max);
        assert_eq!(t2.stats[i].count, 2 * t1.stats[i].count);
        assert_eq!(t2.stats[i].sum, 2 * t1.stats[i].sum);
    }
}

#[test]
fn chunk_statistics_per_station() {
    let data = b"Hamburg;12.0\nHamburg;-5.1\nBulawayo;8.9\n";
    let t = scan_range(data, 0, data.len()).unwrap();
    assert_eq!(t.names[0], b"Bulawayo".to_vec());
    assert_eq!(t.stats[0], Stat { min: 89, max: 89, sum: 89, count: 1 });
    assert_eq!(t.names[1], b"Hamburg".to_vec());
    assert_eq!(t.stats[1], Stat { min: -51, max: 120, sum: 69, count: 2 });
    assert_eq!(t.stats[1].mean(), 35);
}

#[test]
fn scan_of_a_middle_range_reads_only_that_range() {
    let data = b"a;1.0\nb;2.0\nc;3.0\n";
    let t = scan_range(data, 6, 12).unwrap();
    assert_eq!(t.len(), 1);
    assert_eq!(t.names[0], b"b".to_vec());
    assert_eq!(scan_range(data, 6, 11).unwrap().stats[0].count, 1);
}

#[test]
fn worker_results_merge_in_order() {
    let data = b"Zed;-99.9\nAlp;99.9\nZed;99.9\nAlp;-99.9\n";
    let ranges = split_ranges(data, 2);
    assert_eq!(ranges, vec![(0, 28), (28, 38)]);
    let results: Vec<_> = ranges.iter().map(|&(a, b)| scan_range(data, a, b)).collect();
    let out = report_results(results).unwrap();
    assert_eq!(String::from_utf8(out).unwrap(), "{Alp=-99.9/0.0/99.9, Zed=-99.9/0.0/99.9}");
}

#[test]
fn worker_results_report_first_error() {
    let data = b"a;1.0\nb;x\nc;2.0\nd;\n";
    let results = vec![
        scan_range(data, 0, 6),
        scan_range(data, 6, 10),
        scan_range(data, 10, 16),
        scan_range(data, 16, 19),
    ];
    assert_eq!(report_results(results), Err(Error::MalformedRecord { offset: 6 }));
}

#[test]
fn split_counts_follow_chunk_size() {
    let data = b"Hamburg;12.0\nHamburg;-5.1\nBulawayo;8.9\n";
    assert_eq!(split_ranges(data, 2), vec![(0, 26), (26, 39)]);
    let abc = b"a;1.0\nb;2.0\na;3.0\nc;4.0\nb;5.0\na;6.0\n";
    assert_eq!(split_ranges(abc, 4), vec![(0, 12), (12, 24), (24, 36)]);
}
