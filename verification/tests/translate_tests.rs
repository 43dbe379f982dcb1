//! Tests of the id translator: the default identity map, single-extent
//! tables, and the overflow fallback.

use user_namespace::Extent;
use user_namespace::IdMap;
use user_namespace::Kind;
use user_namespace::idmap::OVERFLOW_ID;

#[test]
fn default_map_is_identity() {
    let m = IdMap::default();
    assert_eq!(m.kind(), Kind::UidMap);
    assert_eq!(m.nr_extents(), 1);
    for id in [0u32, 1, 12345, 65534, 65536, 4_294_967_294] {
        assert_eq!(m.map_id_down(id), id);
        assert_eq!(m.map_id_up(id), id);
    }
}

#[test]
fn default_map_top_id_falls_past_extent() {
    // The single extent counts u32::MAX ids starting at 0, so u32::MAX
    // itself lies just past it and takes the overflow fallback.
    let m = IdMap::default();
    assert_eq!(m.map_id_down(4_294_967_295), OVERFLOW_ID);
    assert_eq!(m.map_id_up(4_294_967_295), OVERFLOW_ID);
}

#[test]
fn single_extent_translation() {
    let exts = vec![Extent { first: 1000, lower_first: 0, count: 10 }];
    let m = IdMap::from_extents(Kind::UidMap, &exts).unwrap();
    assert_eq!(m.map_id_down(1000), 0);
    assert_eq!(m.map_id_down(1009), 9);
    assert_eq!(m.map_id_down(1010), OVERFLOW_ID);
    assert_eq!(m.map_id_down(999), OVERFLOW_ID);
    assert_eq!(m.map_id_up(0), 1000);
    assert_eq!(m.map_id_up(9), 1009);
    assert_eq!(m.map_id_up(10), OVERFLOW_ID);
}

#[test]
fn first_matching_extent_wins() {
    let exts = vec![
        Extent { first: 0, lower_first: 100, count: 10 },
        Extent { first: 5, lower_first: 200, count: 10 },
    ];
    let m = IdMap::from_extents(Kind::GidMap, &exts).unwrap();
    // Id 5 lies in both upper ranges; the extent listed first decides.
    assert_eq!(m.map_id_down(5), 105);
    // Id 14 lies only in the second extent's upper range.
    assert_eq!(m.map_id_down(14), 209);
}

#[test]
fn round_trip_inside_mapped_ranges() {
    let exts = vec![
        Extent { first: 0, lower_first: 100000, count: 65536 },
        Extent { first: 65536, lower_first: 165536, count: 1 },
    ];
    let m = IdMap::from_extents(Kind::UidMap, &exts).unwrap();
    for id in [0u32, 5, 65535, 65536] {
        assert_eq!(m.map_id_up(m.map_id_down(id)), id);
    }
    for id in [100000u32, 100005, 165535, 165536] {
        assert_eq!(m.map_id_down(m.map_id_up(id)), id);
    }
}

#[test]
fn empty_map_always_overflows() {
    let m = IdMap::from_extents(Kind::UidMap, &Vec::new()).unwrap();
    assert_eq!(m.nr_extents(), 0);
    for id in [0u32, 1, 65534, 4_294_967_295] {
        assert_eq!(m.map_id_down(id), OVERFLOW_ID);
        assert_eq!(m.map_id_up(id), OVERFLOW_ID);
    }
}

#[test]
fn from_extents_respects_capacity() {
    let five = vec![Extent { first: 0, lower_first: 0, count: 1 }; 5];
    let six = vec![Extent { first: 0, lower_first: 0, count: 1 }; 6];
    assert!(IdMap::from_extents(Kind::UidMap, &five).is_some());
    assert!(IdMap::from_extents(Kind::UidMap, &six).is_none());
}

#[test]
fn from_extents_keeps_order_and_kind() {
    let exts = vec![
        Extent { first: 10, lower_first: 0, count: 1 },
        Extent { first: 20, lower_first: 1, count: 2 },
    ];
    let m = IdMap::from_extents(Kind::GidMap, &exts).unwrap();
    assert_eq!(m.kind(), Kind::GidMap);
    assert_eq!(m.nr_extents(), 2);
    assert_eq!(m.extent_at(0), exts[0]);
    assert_eq!(m.extent_at(1), exts[1]);
}

#[test]
fn kind_resource_names() {
    assert_eq!(Kind::UidMap.resource_name(), "uid_map");
    assert_eq!(Kind::GidMap.resource_name(), "gid_map");
    assert_eq!(Kind::from_resource_name("uid_map"), Kind::UidMap);
    assert_eq!(Kind::from_resource_name("gid_map"), Kind::GidMap);
    assert_eq!(Kind::from_resource_name("anything else"), Kind::GidMap);
}
