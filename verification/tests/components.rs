//! Unit tests of the components: scanner, parser, renderer, table, hash.

use onebrrrc::aggregate::aggregate_chunk;
use onebrrrc::hash::hash_bytes;
use onebrrrc::parse::parse_temp;
use onebrrrc::parse::parse_temp_checked;
use onebrrrc::render::render_mean;
use onebrrrc::render::render_temp;
use onebrrrc::scan::find_next_byte;
use onebrrrc::scan::find_next_newline;
use onebrrrc::scan::find_next_semicolon;
use onebrrrc::table::Table;

#[test]
fn scanner_finds_first_occurrence() {
    assert_eq!(find_next_byte(b"abcabc", b'b'), Some(1));
    assert_eq!(find_next_byte(b"abcabc", b'a'), Some(0));
    assert_eq!(find_next_byte(b"abcabc", b'z'), None);
    assert_eq!(find_next_byte(b"", b'a'), None);
    assert_eq!(find_next_newline(b"key;1.0\nrest"), Some(7));
    assert_eq!(find_next_semicolon(b"key;1.0\n"), Some(3));
    assert_eq!(find_next_newline(b"key;1.0"), None);
}

#[test]
fn scanner_block_and_tail_agree_with_naive_scan() {
    // needles at every position across word boundaries, and absent
    let base: Vec<u8> = (0..27u8).map(|i| b'a' + i % 26).collect();
    for pos in 0..base.len() {
        let mut hay = base.clone();
        hay[pos] = b';';
        let naive = hay.iter().position(|&b| b == b';');
        assert_eq!(find_next_byte(&hay, b';'), naive);
        assert_eq!(find_next_byte(&hay, b';'), Some(pos));
    }
    assert_eq!(find_next_byte(&base, b';'), None);
}

#[test]
fn parser_scales_by_ten() {
    assert_eq!(parse_temp(b"0.0"), 0);
    assert_eq!(parse_temp(b"5.5"), 55);
    assert_eq!(parse_temp(b"-0.5"), -5);
    assert_eq!(parse_temp(b"99.9"), 999);
    assert_eq!(parse_temp(b"-99.9"), -999);
    assert_eq!(parse_temp(b"-12.3"), -123);
}

#[test]
fn checked_parser_accepts_grammar() {
    assert_eq!(parse_temp_checked(b"0.0"), Some(0));
    assert_eq!(parse_temp_checked(b"12.3"), Some(123));
    assert_eq!(parse_temp_checked(b"-1.0"), Some(-10));
    assert_eq!(parse_temp_checked(b"-99.9"), Some(-999));
}

#[test]
fn checked_parser_rejects_malformed() {
    assert_eq!(parse_temp_checked(b""), None);
    assert_eq!(parse_temp_checked(b"-"), None);
    assert_eq!(parse_temp_checked(b"12"), None);
    assert_eq!(parse_temp_checked(b"1.23"), None);
    assert_eq!(parse_temp_checked(b"123.0"), None);
    assert_eq!(parse_temp_checked(b"+1.0"), None);
    assert_eq!(parse_temp_checked(b"--1.0"), None);
    assert_eq!(parse_temp_checked(b"1,0"), None);
    assert_eq!(parse_temp_checked(b"a.b"), None);
    assert_eq!(parse_temp_checked(b"1."), None);
    assert_eq!(parse_temp_checked(b".5"), None);
}

#[test]
fn parse_render_round_trip() {
    assert_eq!(render_temp(-123), b"-12.3".to_vec());
    assert_eq!(parse_temp(&render_temp(-123)), -123);
    for v in [-999, -100, -99, -10, -1, 0, 1, 9, 10, 99, 100, 999] {
        let text = render_temp(v);
        assert_eq!(parse_temp(&text), v);
    }
}

#[test]
fn mean_rendering() {
    assert_eq!(render_mean(220, 2), b"11.0".to_vec());
    assert_eq!(render_mean(-5, 1), b"-0.5".to_vec());
    assert_eq!(render_mean(15, 2), b"0.8".to_vec());
    assert_eq!(render_mean(-15, 2), b"-0.8".to_vec());
    assert_eq!(render_mean(0, 3), b"0.0".to_vec());
}

#[test]
fn table_get_statistics() {
    let mut t = Table::new();
    t.record(b"Hamburg", 120);
    t.record(b"Berlin", 55);
    t.record(b"Hamburg", 100);
    assert_eq!(t.get(b"Hamburg"), Some((100, 220, 2, 120)));
    assert_eq!(t.get(b"Berlin"), Some((55, 55, 1, 55)));
    assert_eq!(t.get(b"Oslo"), None);
    assert_eq!(t.entry_count(), 2);
}

#[test]
fn merged_combines_statistics() {
    let mut a = Table::new();
    a.record(b"K", -30);
    let mut b = Table::new();
    b.record(b"K", 70);
    b.record(b"L", 1);
    let m = a.merged(&b).unwrap();
    assert_eq!(m.get(b"K"), Some((-30, 40, 2, 70)));
    assert_eq!(m.get(b"L"), Some((1, 1, 1, 1)));
}

#[test]
fn aggregate_chunk_covers_subrange() {
    let input = b"A;1.0\nB;2.0\nA;3.0\n";
    let t = aggregate_chunk(input, 6, 18);
    assert_eq!(t.get(b"B"), Some((20, 20, 1, 20)));
    assert_eq!(t.get(b"A"), Some((30, 30, 1, 30)));
}

#[test]
fn hash_is_a_function_of_the_bytes() {
    assert_eq!(hash_bytes(b"Hamburg"), hash_bytes(b"Hamburg"));
    assert_ne!(hash_bytes(b"abc"), hash_bytes(b"abd"));
    // block path and byte-wise tail together
    let long = b"a-station-name-longer-than-sixteen-bytes";
    assert_eq!(hash_bytes(long), hash_bytes(long));
    assert_ne!(hash_bytes(long), hash_bytes(&long[..long.len() - 1]));
}
