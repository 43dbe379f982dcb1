//! Properties of the translator and the parser that hold beyond the
//! individual function contracts: the pointwise reading of the scans, the
//! identity behaviour of the default map, the round-trip law, parser
//! determinism, and the behaviour of an empty table.

use vstd::prelude::*;

use crate::idmap::Extent;
use crate::idmap::IdMap;
use crate::idmap::Kind;
use crate::idmap::OVERFLOW_ID;
use crate::idmap::down_image;
use crate::idmap::in_lower_range;
use crate::idmap::in_upper_range;
use crate::idmap::spec_map_down;
use crate::idmap::spec_map_up;
use crate::idmap::up_image;
use crate::parse::parses_to;
use crate::parse::spec_extents;
use crate::parse::spec_lines;

verus! {

/// Index of the first extent whose upper range contains `id`
/// (`exts.len()` when none does).
pub open spec fn first_upper_match(exts: Seq<Extent>, id: u32) -> int
    decreases exts.len(),
{
    if exts.len() == 0 {
        0
    } else if in_upper_range(exts[0], id) {
        0
    } else {
        1 + first_upper_match(exts.drop_first(), id)
    }
}

/// Index of the first extent whose lower range contains `id`
/// (`exts.len()` when none does).
pub open spec fn first_lower_match(exts: Seq<Extent>, id: u32) -> int
    decreases exts.len(),
{
    if exts.len() == 0 {
        0
    } else if in_lower_range(exts[0], id) {
        0
    } else {
        1 + first_lower_match(exts.drop_first(), id)
    }
}

/// Pointwise reading of the downward scan: earlier extents do not match,
/// and the result is the image under the first matching extent, or
/// `OVERFLOW_ID` when no extent's upper range contains `id`.
pub proof fn lemma_map_down_characterization(exts: Seq<Extent>, id: u32)
    ensures
        0 <= first_upper_match(exts, id) <= exts.len(),
        forall|k: int|
            0 <= k < first_upper_match(exts, id) ==> !in_upper_range(#[trigger] exts[k], id),
        first_upper_match(exts, id) < exts.len() ==> in_upper_range(
            exts[first_upper_match(exts, id)],
            id,
        ) && spec_map_down(exts, id) == down_image(exts[first_upper_match(exts, id)], id),
        first_upper_match(exts, id) == exts.len() ==> spec_map_down(exts, id) == OVERFLOW_ID,
    decreases exts.len(),
{
    if exts.len() == 0 {
    } else if in_upper_range(exts[0], id) {
    } else {
        lemma_map_down_characterization(exts.drop_first(), id);
        assert forall|k: int| 0 <= k < first_upper_match(exts, id) implies !in_upper_range(
            #[trigger] exts[k],
            id,
        ) by {
            if k > 0 {
                assert(exts.drop_first()[k - 1] == exts[k]);
                assert(!in_upper_range(exts.drop_first()[k - 1], id));
            }
        }
    }
}

/// Pointwise reading of the upward scan, symmetric to the downward one.
pub proof fn lemma_map_up_characterization(exts: Seq<Extent>, id: u32)
    ensures
        0 <= first_lower_match(exts, id) <= exts.len(),
        forall|k: int|
            0 <= k < first_lower_match(exts, id) ==> !in_lower_range(#[trigger] exts[k], id),
        first_lower_match(exts, id) < exts.len() ==> in_lower_range(
            exts[first_lower_match(exts, id)],
            id,
        ) && spec_map_up(exts, id) == up_image(exts[first_lower_match(exts, id)], id),
        first_lower_match(exts, id) == exts.len() ==> spec_map_up(exts, id) == OVERFLOW_ID,
    decreases exts.len(),
{
    if exts.len() == 0 {
    } else if in_lower_range(exts[0], id) {
    } else {
        lemma_map_up_characterization(exts.drop_first(), id);
        assert forall|k: int| 0 <= k < first_lower_match(exts, id) implies !in_lower_range(
            #[trigger] exts[k],
            id,
        ) by {
            if k > 0 {
                assert(exts.drop_first()[k - 1] == exts[k]);
                assert(!in_lower_range(exts.drop_first()[k - 1], id));
            }
        }
    }
}

/// Each extent's two ranges lie within the 32-bit id space.  The kernel
/// guarantees this of the tables it emits; it is not re-validated at parse
/// time.
pub open spec fn ranges_fit(exts: Seq<Extent>) -> bool {
    forall|k: int|
        0 <= k < exts.len() ==> (#[trigger] exts[k]).first + exts[k].count <= 0x1_0000_0000
            && exts[k].lower_first + exts[k].count <= 0x1_0000_0000
}

/// No id lies in the lower range of two distinct extents.
pub open spec fn lower_ranges_disjoint(exts: Seq<Extent>) -> bool {
    forall|a: int, b: int, id: u32|
        0 <= a < b < exts.len() ==> !(#[trigger] in_lower_range(exts[a], id)
            && #[trigger] in_lower_range(exts[b], id))
}

/// No id lies in the upper range of two distinct extents.
pub open spec fn upper_ranges_disjoint(exts: Seq<Extent>) -> bool {
    forall|a: int, b: int, id: u32|
        0 <= a < b < exts.len() ==> !(#[trigger] in_upper_range(exts[a], id)
            && #[trigger] in_upper_range(exts[b], id))
}

/// Round-trip law, downward then upward: over a table whose ranges fit in
/// the 32-bit id space and whose lower ranges do not overlap (both
/// guaranteed by the kernel), any id inside some extent's upper range
/// translates down and then back up to itself.
pub proof fn lemma_round_trip_down(exts: Seq<Extent>, id: u32)
    requires
        ranges_fit(exts),
        lower_ranges_disjoint(exts),
        exists|k: int| 0 <= k < exts.len() && in_upper_range(#[trigger] exts[k], id),
    ensures
        spec_map_up(exts, spec_map_down(exts, id)) == id,
{
    lemma_map_down_characterization(exts, id);
    let f = first_upper_match(exts, id);
    assert(f < exts.len()) by {
        let w = choose|k: int| 0 <= k < exts.len() && in_upper_range(#[trigger] exts[k], id);
        assert(!(f == exts.len()) ==> f < exts.len());
        if f == exts.len() {
            assert(!in_upper_range(exts[w], id));
        }
    }
    let e = exts[f];
    let r = spec_map_down(exts, id);
    assert(e.lower_first + e.count <= 0x1_0000_0000);
    assert(0 <= id - e.first + e.lower_first < 0x1_0000_0000);
    assert(r == id - e.first + e.lower_first) by {
        vstd::arithmetic::div_mod::lemma_small_mod(
            (id - e.first + e.lower_first) as nat,
            0x1_0000_0000nat,
        );
    }
    assert(in_lower_range(e, r));
    lemma_map_up_characterization(exts, r);
    let g = first_lower_match(exts, r);
    assert(g < exts.len()) by {
        if g == exts.len() {
            assert(!in_lower_range(exts[f], r));
        }
    }
    assert(g == f) by {
        if g < f {
            assert(in_lower_range(exts[g], r) && in_lower_range(exts[f], r));
        }
        if f < g {
            assert(!in_lower_range(exts[f], r));
        }
    }
    assert(spec_map_up(exts, r) == up_image(e, r));
    assert(0 <= r - e.lower_first + e.first < 0x1_0000_0000);
    assert(up_image(e, r) == id) by {
        vstd::arithmetic::div_mod::lemma_small_mod(
            (r - e.lower_first + e.first) as nat,
            0x1_0000_0000nat,
        );
    }
}

/// Round-trip law, upward then downward: over a table whose ranges fit and
/// whose upper ranges do not overlap, any id inside some extent's lower
/// range translates up and then back down to itself.
pub proof fn lemma_round_trip_up(exts: Seq<Extent>, id: u32)
    requires
        ranges_fit(exts),
        upper_ranges_disjoint(exts),
        exists|k: int| 0 <= k < exts.len() && in_lower_range(#[trigger] exts[k], id),
    ensures
        spec_map_down(exts, spec_map_up(exts, id)) == id,
{
    lemma_map_up_characterization(exts, id);
    let f = first_lower_match(exts, id);
    assert(f < exts.len()) by {
        let w = choose|k: int| 0 <= k < exts.len() && in_lower_range(#[trigger] exts[k], id);
        if f == exts.len() {
            assert(!in_lower_range(exts[w], id));
        }
    }
    let e = exts[f];
    let r = spec_map_up(exts, id);
    assert(e.first + e.count <= 0x1_0000_0000);
    assert(0 <= id - e.lower_first + e.first < 0x1_0000_0000);
    assert(r == id - e.lower_first + e.first) by {
        vstd::arithmetic::div_mod::lemma_small_mod(
            (id - e.lower_first + e.first) as nat,
            0x1_0000_0000nat,
        );
    }
    assert(in_upper_range(e, r));
    lemma_map_down_characterization(exts, r);
    let g = first_upper_match(exts, r);
    assert(g < exts.len()) by {
        if g == exts.len() {
            assert(!in_upper_range(exts[f], r));
        }
    }
    assert(g == f) by {
        if g < f {
            assert(in_upper_range(exts[g], r) && in_upper_range(exts[f], r));
        }
        if f < g {
            assert(!in_upper_range(exts[f], r));
        }
    }
    assert(spec_map_down(exts, r) == down_image(e, r));
    assert(0 <= r - e.first + e.lower_first < 0x1_0000_0000);
    assert(down_image(e, r) == id) by {
        vstd::arithmetic::div_mod::lemma_small_mod(
            (r - e.first + e.lower_first) as nat,
            0x1_0000_0000nat,
        );
    }
}

/// The default identity map translates every id below `u32::MAX` to
/// itself, in both directions.  (`u32::MAX` itself lies just past the
/// single extent, whose count of `u32::MAX` covers ids `0` through
/// `u32::MAX - 1`, and so falls back to `OVERFLOW_ID`.)
pub proof fn lemma_identity_map(exts: Seq<Extent>, id: u32)
    requires
        exts == seq![(Extent { first: 0, lower_first: 0, count: 0xffff_ffffu32 })],
        id < 0xffff_ffffu32,
    ensures
        spec_map_down(exts, id) == id,
        spec_map_up(exts, id) == id,
{
    assert(in_upper_range(exts[0], id));
    assert(in_lower_range(exts[0], id));
    vstd::arithmetic::div_mod::lemma_small_mod(id as nat, 0x1_0000_0000nat);
}

/// Parsing is deterministic: two tables parsed from the same text with the
/// same tag hold identical extents in identical order.
pub proof fn lemma_parse_deterministic(s: Seq<u8>, kind: Kind, m1: IdMap, m2: IdMap)
    requires
        parses_to(s, kind, m1),
        parses_to(s, kind, m2),
    ensures
        m1.extents() == m2.extents(),
        m1.map_kind() == m2.map_kind(),
{
}

/// An empty input parses to a table with no extents, and a table with no
/// extents translates every id, in both directions, to `OVERFLOW_ID`.
pub proof fn lemma_empty_input(s: Seq<u8>, id: u32)
    requires
        s.len() == 0,
    ensures
        spec_lines(s).len() == 0,
        spec_extents(s).len() == 0,
        spec_map_down(spec_extents(s), id) == OVERFLOW_ID,
        spec_map_up(spec_extents(s), id) == OVERFLOW_ID,
{
}

} // verus!
