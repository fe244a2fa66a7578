//! End-to-end tests of the aggregation engine: the documented scenarios,
//! partition independence, merge order independence, and chunking.

use onebrrrc::aggregate::run;
use onebrrrc::chunks::split_chunks;
use onebrrrc::format::format_table;
use onebrrrc::table::AggError;
use onebrrrc::table::Table;

fn summary(input: &[u8], workers: usize) -> Vec<u8> {
    let table = run(input, workers);
    format_table(&table)
}

#[test]
fn three_records_output() {
    let input = b"Hamburg;12.0\nBerlin;5.5\nHamburg;10.0\n";
    let out = summary(input, 1);
    assert_eq!(out, b"{Berlin=5.5/5.5/5.5, Hamburg=10.0/11.0/12.0}".to_vec());
}

#[test]
fn single_negative_record() {
    let input = b"X;-0.5\n";
    let out = summary(input, 1);
    assert_eq!(out, b"{X=-0.5/-0.5/-0.5}".to_vec());
}

#[test]
fn empty_input() {
    let out = summary(b"", 1);
    assert_eq!(out, b"{}".to_vec());
}

#[test]
fn missing_trailing_newline() {
    let out = summary(b"A;1.0\nB;-2.5", 1);
    assert_eq!(out, b"{A=1.0/1.0/1.0, B=-2.5/-2.5/-2.5}".to_vec());
}

#[test]
fn aggregation_independent_of_worker_count() {
    let input = b"Hamburg;12.0\nBerlin;5.5\nHamburg;10.0\nOslo;-3.4\nBerlin;7.5\nX;0.0\nOslo;-9.9\nY;99.9\nHamburg;0.1\n";
    let expected = summary(input, 1);
    for workers in 2..=8usize {
        assert_eq!(summary(input, workers), expected);
    }
}

#[test]
fn merge_order_independent() {
    let mut a = Table::new();
    a.record(b"X", 10);
    a.record(b"Y", 20);
    let mut b = Table::new();
    b.record(b"Y", 5);
    b.record(b"Z", -31);
    let mut c = Table::new();
    c.record(b"X", 999);

    let left = a.merged(&b).unwrap().merged(&c).unwrap();
    let right = a.merged(&b.merged(&c).unwrap()).unwrap();
    let swapped = c.merged(&b).unwrap().merged(&a).unwrap();
    assert_eq!(format_table(&left), format_table(&right));
    assert_eq!(format_table(&left), format_table(&swapped));
}

#[test]
fn chunks_partition_buffer() {
    let input = b"Hamburg;12.0\nBerlin;5.5\nHamburg;10.0\nOslo;-3.4\n";
    for workers in 1..=6usize {
        let chunks = split_chunks(input, workers);
        assert_eq!(chunks[0].0, 0);
        assert_eq!(chunks[chunks.len() - 1].1, input.len());
        let mut rebuilt: Vec<u8> = Vec::new();
        let mut prev_end = 0;
        for &(s, e) in &chunks {
            assert_eq!(s, prev_end);
            assert!(s < e);
            rebuilt.extend_from_slice(&input[s..e]);
            prev_end = e;
        }
        assert_eq!(rebuilt, input.to_vec());
    }
}

#[test]
fn empty_buffer_yields_no_chunks() {
    let chunks = split_chunks(b"", 4);
    assert!(chunks.is_empty());
}

#[test]
fn record_straddles_split_point() {
    // With two workers the approximate split point falls inside the
    // middle record; the record must still land whole in one chunk.
    let input = b"Aa;1.0\nMiddlestation;2.0\nZz;3.0\n";
    let chunks = split_chunks(input, 2);
    for &(_, e) in &chunks {
        if e < input.len() {
            assert_eq!(input[e - 1], b'\n');
        }
    }
    assert_eq!(summary(input, 2), summary(input, 1));
    assert_eq!(
        summary(input, 2),
        b"{Aa=1.0/1.0/1.0, Middlestation=2.0/2.0/2.0, Zz=3.0/3.0/3.0}".to_vec()
    );
}

#[test]
fn malformed_records_skipped() {
    // no separator, empty key, bad value grammar: all skipped
    let input = b"good;1.0\nnoseparator\n;2.0\nbad;12\nbad;1.23\ngood;3.0\n";
    let out = summary(input, 1);
    assert_eq!(out, b"{good=1.0/2.0/3.0}".to_vec());
}

#[test]
fn mean_rounds_half_away_from_zero() {
    let out = summary(b"X;0.7\nX;0.8\n", 1);
    assert_eq!(out, b"{X=0.7/0.8/0.8}".to_vec());
    let neg = summary(b"X;-0.7\nX;-0.8\n", 1);
    assert_eq!(neg, b"{X=-0.8/-0.8/-0.7}".to_vec());
}

#[test]
fn non_ascii_keys_kept_byte_for_byte() {
    let input = "Z\u{fc}rich;3.1\n".as_bytes();
    let out = summary(input, 1);
    assert_eq!(out, "{Z\u{fc}rich=3.1/3.1/3.1}".as_bytes().to_vec());
}

#[test]
fn merge_count_overflow() {
    let mut t = Table::new();
    t.record(b"X", 10);
    let mut overflowed = false;
    for _ in 0..70 {
        match t.merged(&t) {
            Ok(t2) => t = t2,
            Err(e) => {
                assert!(matches!(e, AggError::CountOverflow));
                overflowed = true;
                break;
            },
        }
    }
    assert!(overflowed);
}
