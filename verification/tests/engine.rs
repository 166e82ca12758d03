use brc_engine::decode::{check_token, parse_digits};
use brc_engine::mean_tenths;
use brc_engine::merge::merge_format;
use brc_engine::order::lex_leq_bytes;
use brc_engine::partition::chunk_by_newlines;
use brc_engine::driver::process_partition;
use brc_engine::render::render_tenths;
use brc_engine::scanner::{find_byte_from, memchr_newline};
use brc_engine::solve_bytes;
use brc_engine::table::{key_hash, Table};

fn solve_str(input: &str, workers: usize) -> String {
    let out = solve_bytes(input.as_bytes(), workers).expect("well-formed input");
    String::from_utf8(out).expect("ascii output")
}

#[test]
fn end_to_end_two_stations() {
    let got = solve_str("Hamburg;12.3\nHamburg;10.1\nBerlin;-5.0\n", 1);
    assert_eq!(got, "{Berlin=-5.0/-5.0/-5.0, Hamburg=10.1/11.2/12.3}\n");
}

#[test]
fn end_to_end_no_trailing_newline() {
    let got = solve_str("X;0.0", 1);
    assert_eq!(got, "{X=0.0/0.0/0.0}\n");
}

#[test]
fn empty_trailing_line_is_skipped() {
    let got = solve_str("X;1.0\n\n", 1);
    assert_eq!(got, "{X=1.0/1.0/1.0}\n");
    // exactly one entry, no spurious empty-named station
    assert_eq!(got.matches('=').count(), 1);
    assert_eq!(got.matches('/').count(), 2);
}

#[test]
fn empty_input_renders_empty_braces() {
    assert_eq!(solve_str("", 4), "{}\n");
}

#[test]
fn output_independent_of_worker_count() {
    let input = "a;1.0\nbb;-2.5\na;3.3\nccc;99.9\nbb;-0.1\na;-99.9\nd;0.0\n";
    let reference = solve_str(input, 1);
    for workers in [0usize, 2, 3, 5, 8, 64] {
        assert_eq!(solve_str(input, workers), reference, "workers={workers}");
    }
}

#[test]
fn merging_partitions_matches_single_pass() {
    let input = b"aa;1.0\nbb;2.0\naa;3.0\ncc;-4.0\nbb;5.5\n";
    // split at a line boundary: "aa;1.0\nbb;2.0\n" is 14 bytes
    let t1 = process_partition(input, 0, 14).expect("left half");
    let t2 = process_partition(input, 14, input.len()).expect("right half");
    let merged = merge_format(&vec![t1, t2]);
    let whole = solve_bytes(input, 1).expect("whole");
    assert_eq!(merged, whole);
}

#[test]
fn mean_rounds_half_away_from_zero() {
    // two observations 1.0 and 2.0: mean renders as 1.5
    assert_eq!(solve_str("A;1.0\nA;2.0\n", 1), "{A=1.0/1.5/2.0}\n");
    // 1.0, 1.0, 2.0: 40 tenths over 3 rounds to 13 tenths
    assert_eq!(solve_str("A;1.0\nA;1.0\nA;2.0\n", 1), "{A=1.0/1.3/2.0}\n");
    // an exact half tenth rounds away from zero, both signs
    assert_eq!(mean_tenths(224, 2), 112);
    assert_eq!(mean_tenths(40, 3), 13);
    assert_eq!(mean_tenths(7, 2), 4);
    assert_eq!(mean_tenths(-7, 2), -4);
    assert_eq!(mean_tenths(30, 4), 8);
    assert_eq!(mean_tenths(-30, 4), -8);
}

#[test]
fn eight_byte_names_are_distinguished() {
    // two 8-byte names differing in one byte
    let got = solve_str("AAAAAAAB;1.0\nAAAAAAAC;2.0\n", 1);
    assert_eq!(got, "{AAAAAAAB=1.0/1.0/1.0, AAAAAAAC=2.0/2.0/2.0}\n");
    // an 8-byte name whose packed prefix equals the 9-byte name's
    let got = solve_str("ABCDEFGH;1.0\nABCDEFGHI;2.0\nABCDEFGH;3.0\n", 1);
    assert_eq!(got, "{ABCDEFGH=1.0/2.0/3.0, ABCDEFGHI=2.0/2.0/2.0}\n");
}

#[test]
fn decoder_exact_values() {
    assert_eq!(parse_digits(b"12.3"), 123);
    assert_eq!(parse_digits(b"-5.0"), -50);
    assert_eq!(parse_digits(b"0.0"), 0);
    assert_eq!(parse_digits(b"-99.9"), -999);
    assert_eq!(parse_digits(b"99.9"), 999);
    assert_eq!(parse_digits(b"-0.1"), -1);
}

#[test]
fn round_trip_every_representable_value() {
    for v in -999i32..=999 {
        let mut out: Vec<u8> = Vec::new();
        render_tenths(v, &mut out);
        assert!(check_token(&out), "rendering of {v} not a token");
        assert_eq!(parse_digits(&out), v, "round trip of {v}");
    }
}

#[test]
fn token_check_rejects_malformed_tokens() {
    for bad in [
        &b"abc"[..],
        b"",
        b"12.",
        b"1..2",
        b"1.23",
        b"123.4",
        b"-",
        b"-.5",
        b"1,0",
        b"--1.0",
    ] {
        assert!(!check_token(bad), "accepted {bad:?}");
    }
    assert!(check_token(b"1.0"));
    assert!(check_token(b"-1.0"));
    assert!(check_token(b"99.9"));
    assert!(check_token(b"-99.9"));
}

#[test]
fn malformed_value_is_a_fatal_format_error() {
    assert!(solve_bytes(b"X;abc\n", 1).is_err());
    assert!(solve_bytes(b"X;1.234\n", 2).is_err());
    assert!(solve_bytes(b"ok;1.0\nX;\x00.0\n", 1).is_err());
}

#[test]
fn rendering_exact_forms() {
    let cases: [(i32, &str); 7] = [
        (-999, "-99.9"),
        (-100, "-10.0"),
        (-5, "-0.5"),
        (0, "0.0"),
        (7, "0.7"),
        (100, "10.0"),
        (999, "99.9"),
    ];
    for (v, want) in cases {
        let mut out: Vec<u8> = Vec::new();
        render_tenths(v, &mut out);
        assert_eq!(String::from_utf8(out).unwrap(), want);
    }
}

#[test]
fn chunks_cover_and_end_on_newlines() {
    let data = b"a;1.0\nb;2.0\nc;3.0\nd;4.0\n";
    for workers in [1usize, 2, 3, 7] {
        let ranges = chunk_by_newlines(data, workers);
        assert!(!ranges.is_empty());
        assert_eq!(ranges[0].0, 0);
        assert_eq!(ranges[ranges.len() - 1].1, data.len());
        for w in ranges.windows(2) {
            assert_eq!(w[0].1, w[1].0);
            assert_eq!(data[w[0].1 - 1], b'\n');
        }
    }
    // zero workers means one range over everything
    let all = chunk_by_newlines(data, 0);
    assert_eq!(all, vec![(0usize, data.len())]);
}

#[test]
fn scanner_finds_first_occurrence() {
    let data = b"abc;def\nx";
    assert_eq!(find_byte_from(data, 0, data.len(), b';'), 3);
    assert_eq!(find_byte_from(data, 4, data.len(), b';'), data.len());
    assert_eq!(memchr_newline(data), Some(7));
    assert_eq!(memchr_newline(b"abc"), None);
}

#[test]
fn table_accumulates_per_station() {
    let mut t = Table::new();
    let key = b"Lisbon";
    let h = key_hash(key);
    t.record(h, key, 175);
    t.record(h, key, -30);
    t.record(h, key, 40);
    let got = t.find(h, key).expect("present");
    assert_eq!(got, (-30, 175, 185i64, 3u64));
    assert!(t.find(key_hash(b"Porto"), b"Porto").is_none());
    assert_eq!(t.num_keys(), 1);
    assert_eq!(t.key_at(0).as_slice(), key);
}

#[test]
fn lex_order_is_bytewise() {
    assert!(lex_leq_bytes(b"", b"a"));
    assert!(lex_leq_bytes(b"a", b"a"));
    assert!(lex_leq_bytes(b"a", b"ab"));
    assert!(!lex_leq_bytes(b"ab", b"a"));
    assert!(lex_leq_bytes(b"Berlin", b"Hamburg"));
    assert!(!lex_leq_bytes(b"Hamburg", b"Berlin"));
}
