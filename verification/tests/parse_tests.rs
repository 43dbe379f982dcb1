//! Tests of the extent-table parser: well-formed tables, each rejection,
//! and the line counter.

use user_namespace::Extent;
use user_namespace::IdMap;
use user_namespace::Kind;
use user_namespace::idmap::OVERFLOW_ID;
use user_namespace::parse::line_count;

#[test]
fn parse_two_extents() {
    let m = IdMap::parse(b"0 100000 65536\n65536 165536 1\n", Kind::UidMap).unwrap();
    assert_eq!(m.kind(), Kind::UidMap);
    assert_eq!(m.nr_extents(), 2);
    assert_eq!(m.extent_at(0), Extent { first: 0, lower_first: 100000, count: 65536 });
    assert_eq!(m.extent_at(1), Extent { first: 65536, lower_first: 165536, count: 1 });
}

#[test]
fn parse_is_idempotent() {
    let input: &[u8] = b"0 100000 65536\n65536 165536 1\n";
    let m1 = IdMap::parse(input, Kind::GidMap).unwrap();
    let m2 = IdMap::parse(input, Kind::GidMap).unwrap();
    assert_eq!(m1.kind(), m2.kind());
    assert_eq!(m1.nr_extents(), m2.nr_extents());
    for i in 0..m1.nr_extents() {
        assert_eq!(m1.extent_at(i), m2.extent_at(i));
    }
}

#[test]
fn parse_empty_input() {
    let m = IdMap::parse(b"", Kind::UidMap).unwrap();
    assert_eq!(m.nr_extents(), 0);
    for id in [0u32, 1, 1000, 4_294_967_295] {
        assert_eq!(m.map_id_down(id), OVERFLOW_ID);
        assert_eq!(m.map_id_up(id), OVERFLOW_ID);
    }
}

#[test]
fn parse_without_trailing_newline() {
    let m = IdMap::parse(b"7 8 9", Kind::UidMap).unwrap();
    assert_eq!(m.nr_extents(), 1);
    assert_eq!(m.extent_at(0), Extent { first: 7, lower_first: 8, count: 9 });
}

#[test]
fn parse_tolerates_field_whitespace() {
    let m = IdMap::parse(b"  1 \t 2\t\t3 \n", Kind::UidMap).unwrap();
    assert_eq!(m.nr_extents(), 1);
    assert_eq!(m.extent_at(0), Extent { first: 1, lower_first: 2, count: 3 });
}

#[test]
fn parse_accepts_leading_zeros() {
    let m = IdMap::parse(b"007 08 9\n", Kind::UidMap).unwrap();
    assert_eq!(m.extent_at(0), Extent { first: 7, lower_first: 8, count: 9 });
}

#[test]
fn parse_accepts_extreme_u32_values() {
    let m = IdMap::parse(b"0 0 4294967295\n", Kind::UidMap).unwrap();
    assert_eq!(m.extent_at(0), Extent { first: 0, lower_first: 0, count: 4_294_967_295 });
}

#[test]
fn parse_rejects_two_fields() {
    let e = IdMap::parse(b"0 100000\n", Kind::UidMap).unwrap_err();
    assert_eq!(e.kind, Kind::UidMap);
    assert_eq!(e.line, b"0 100000".to_vec());
}

#[test]
fn parse_rejects_four_fields() {
    let e = IdMap::parse(b"0 1 2 3\n", Kind::GidMap).unwrap_err();
    assert_eq!(e.kind, Kind::GidMap);
    assert_eq!(e.line, b"0 1 2 3".to_vec());
}

#[test]
fn parse_rejects_non_numeric_field() {
    let e = IdMap::parse(b"a b c\n", Kind::GidMap).unwrap_err();
    assert_eq!(e.kind, Kind::GidMap);
    assert_eq!(e.line, b"a b c".to_vec());
}

#[test]
fn parse_rejects_value_past_u32() {
    let e = IdMap::parse(b"4294967296 0 1\n", Kind::UidMap).unwrap_err();
    assert_eq!(e.line, b"4294967296 0 1".to_vec());
}

#[test]
fn parse_rejects_empty_line() {
    let e = IdMap::parse(b"1 2 3\n\n", Kind::UidMap).unwrap_err();
    assert_eq!(e.line, b"".to_vec());
}

#[test]
fn parse_reports_first_bad_line() {
    let e = IdMap::parse(b"1 2 3\nx y\n4 5 6\n", Kind::UidMap).unwrap_err();
    assert_eq!(e.line, b"x y".to_vec());
}

#[test]
fn line_count_matches_reader_semantics() {
    assert_eq!(line_count(b""), 0);
    assert_eq!(line_count(b"\n"), 1);
    assert_eq!(line_count(b"a"), 1);
    assert_eq!(line_count(b"a\n"), 1);
    assert_eq!(line_count(b"a\nb"), 2);
    assert_eq!(line_count(b"a\nb\n"), 2);
    assert_eq!(line_count(b"a\n\nb\n"), 3);
}
