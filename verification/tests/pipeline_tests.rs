use billion_rows::fixed::to_decimal_int;
use billion_rows::pipeline::{process, scan_data};
use billion_rows::scan::{scan_records, Span};
use billion_rows::Error;

fn span_text(buf: &[u8], s: Span) -> Vec<u8> {
    buf[s.start..s.start + s.len].to_vec()
}

fn decoded_vals(buf: &[u8], vals: &[Span]) -> Vec<i64> {
    vals.iter().map(|s| to_decimal_int(&buf[s.start..s.start + s.len]).unwrap()).collect()
}

#[test]
fn scanner_round_trip() {
    let buf = b"A;1.0\nB;2.5\nA;3.0\n";
    let gs = scan_data(buf).unwrap();
    assert_eq!(2, gs.len());
    assert_eq!(b"A".to_vec(), span_text(buf, gs[0].key));
    assert_eq!(vec![10, 30], decoded_vals(buf, &gs[0].vals));
    assert_eq!(b"B".to_vec(), span_text(buf, gs[1].key));
    assert_eq!(vec![25], decoded_vals(buf, &gs[1].vals));
}

#[test]
fn end_to_end_scenario() {
    let buf = b"X;1.5\nY;2.0\nX;2.5\nX;1.0\n";
    let out = process(buf).unwrap();
    assert_eq!(2, out.len());
    assert_eq!(b"X".to_vec(), span_text(buf, out[0].key));
    assert_eq!(10, out[0].stat.min);
    assert_eq!(25, out[0].stat.max);
    assert_eq!(30, out[0].stat.median_x2); // median 1.5
    assert_eq!(b"Y".to_vec(), span_text(buf, out[1].key));
    assert_eq!(20, out[1].stat.min);
    assert_eq!(20, out[1].stat.max);
    assert_eq!(40, out[1].stat.median_x2); // median 2.0
}

#[test]
fn single_record_without_trailing_newline() {
    // The end of the buffer closes the last value; no out-of-bounds access.
    let buf = b"Q;4.2";
    let recs = scan_records(buf).unwrap();
    assert_eq!(1, recs.len());
    let out = process(buf).unwrap();
    assert_eq!(1, out.len());
    assert_eq!(b"Q".to_vec(), span_text(buf, out[0].key));
    assert_eq!(42, out[0].stat.min);
    assert_eq!(42, out[0].stat.max);
    assert_eq!(84, out[0].stat.median_x2);
}

#[test]
fn single_occurrence_key() {
    let buf = b"alpha;7.5\nbeta;-2.5\n";
    let out = process(buf).unwrap();
    assert_eq!(2, out.len());
    for row in &out {
        assert_eq!(row.stat.min, row.stat.max);
        assert_eq!(row.stat.median_x2, 2 * row.stat.min as i128);
    }
    assert_eq!(75, out[0].stat.min);
    assert_eq!(-25, out[1].stat.min);
}

#[test]
fn pipeline_is_idempotent() {
    let buf = b"X;1.5\nY;2.0\nX;2.5\nX;1.0\nZ;-3.5\nY;2.0\n";
    let first = process(buf).unwrap();
    let second = process(buf).unwrap();
    assert_eq!(first, second);
}

#[test]
fn min_median_max_ordering() {
    let buf = b"k;3.0\nk;-1.5\nk;9.9\nk;0.0\n";
    let out = process(buf).unwrap();
    assert_eq!(1, out.len());
    let st = out[0].stat;
    assert!(2 * st.min as i128 <= st.median_x2);
    assert!(st.median_x2 <= 2 * st.max as i128);
    assert_eq!(-15, st.min);
    assert_eq!(99, st.max);
    // Values sorted: -15, 0, 30, 99; median is the mean of 0 and 30.
    assert_eq!(30, st.median_x2);
}

#[test]
fn median_needs_sorting_not_file_order() {
    // A regression guard: the median comes from the values in ascending
    // order, not from their file positions.
    let buf = b"k;9.0\nk;1.0\nk;5.0\n";
    let out = process(buf).unwrap();
    assert_eq!(100, out[0].stat.median_x2); // median 5.0
}

#[test]
fn line_without_delimiter_is_malformed() {
    assert_eq!(Err(Error::MalformedRecord), scan_records(b"X\n"));
    assert_eq!(Err(Error::MalformedRecord), scan_records(b"A;1.0\nnope\n"));
    assert_eq!(Err(Error::MalformedRecord), scan_records(b"tail-without-delim"));
}

#[test]
fn empty_key_is_malformed() {
    assert_eq!(Err(Error::MalformedRecord), scan_records(b";1.0\n"));
}

#[test]
fn newline_at_key_start_ends_scan() {
    // A newline standing where a key would start is a defensive end marker.
    let recs = scan_records(b"\nA;1.0\n").unwrap();
    assert_eq!(0, recs.len());
    let out = process(b"A;1.0\n\nB;2.0\n").unwrap();
    assert_eq!(1, out.len());
}

#[test]
fn empty_buffer_yields_empty_table() {
    let out = process(b"").unwrap();
    assert_eq!(0, out.len());
}

#[test]
fn bad_value_fails_run() {
    assert!(matches!(process(b"A;x.y\n"), Err(Error::NotANumber)));
    assert!(matches!(process(b"A;1.0\nB;2\n"), Err(Error::NotANumber)));
    assert!(matches!(
        process(b"A;99999999999999999999.9\n"),
        Err(Error::OutOfRange)
    ));
}

#[test]
fn keys_match_by_content_not_offset() {
    // The same key bytes at different offsets meet in one group.
    let buf = b"station;1.0\nother;2.0\nstation;3.0\n";
    let out = process(buf).unwrap();
    assert_eq!(2, out.len());
    assert_eq!(b"station".to_vec(), span_text(buf, out[0].key));
    assert_eq!(10, out[0].stat.min);
    assert_eq!(30, out[0].stat.max);
    assert_eq!(40, out[0].stat.median_x2); // median 2.0 of {1.0, 3.0}
}
