//! The id-map data model and the id translator.
//!
//! An [`IdMap`] holds up to [`MAX_EXTENTS`] extents in the order the kernel
//! listed them.  Translation scans the extents in that order and substitutes
//! [`OVERFLOW_ID`] when no extent covers the queried id.

use vstd::prelude::*;
use vstd::string::StringSliceAdditionalSpecFns;

verus! {

/// The kernel allows at most this many extents per id mapping
/// (`UID_GID_MAP_MAX_EXTENTS`).
pub const MAX_EXTENTS: usize = 5;

/// The conventional overflow id substituted when no extent covers an id.
///
/// The true value is configurable on a live system (`overflowuid` /
/// `overflowgid`); this constant is the usual default and stands in as an
/// approximation.
pub const OVERFLOW_ID: u32 = 65534;

/// Which of the two per-process id-map resources a table describes.
///
/// The tag is metadata only: it selects the resource file name and
/// annotates parse errors; it never changes how ids are translated.
#[derive(Clone, Copy, Debug, PartialEq, Eq, Structural)]
pub enum Kind {
    UidMap,
    GidMap,
}

impl Kind {
    /// The file name of this map's resource under a process's proc
    /// directory.
    pub fn resource_name(&self) -> (name: &'static str)
        ensures
            name@ == (match self {
                Kind::UidMap => "uid_map"@,
                Kind::GidMap => "gid_map"@,
            }),
    {
        match self {
            Kind::UidMap => "uid_map",
            Kind::GidMap => "gid_map",
        }
    }

    /// The kind a resource file name selects: `"uid_map"` names the uid
    /// map, and any other name falls back to the gid map.
    pub fn from_resource_name(name: &str) -> (k: Kind)
        ensures
            k == (if name.spec_bytes() == "uid_map".spec_bytes() {
                Kind::UidMap
            } else {
                Kind::GidMap
            }),
    {
        if bytes_eq(name.as_bytes(), "uid_map".as_bytes()) {
            Kind::UidMap
        } else {
            Kind::GidMap
        }
    }
}

/// Are two byte strings equal, byte for byte?
fn bytes_eq(a: &[u8], b: &[u8]) -> (r: bool)
    ensures
        r == (a@ == b@),
{
    if a.len() != b.len() {
        return false;
    }
    let mut i: usize = 0;
    while i < a.len()
        invariant
            i <= a@.len(),
            a@.len() == b@.len(),
            forall|k: int| 0 <= k < i ==> a@[k] == b@[k],
        decreases a@.len() - i,
    {
        if a[i] != b[i] {
            return false;
        }
        i += 1;
    }
    proof {
        assert(a@ =~= b@);
    }
    true
}

/// One contiguous mapping between an "upper" (global) id range starting at
/// `first` and a "lower" (namespace) id range starting at `lower_first`,
/// both `count` ids long.
#[derive(Clone, Copy, Debug, PartialEq, Eq, Structural)]
pub struct Extent {
    pub first: u32,
    pub lower_first: u32,
    pub count: u32,
}

/// Does `e`'s upper (global-side) range `[first, first + count)` contain
/// `id`?
pub open spec fn in_upper_range(e: Extent, id: u32) -> bool {
    e.first <= id && (id as int) < e.first + e.count
}

/// Does `e`'s lower (namespace-side) range `[lower_first, lower_first +
/// count)` contain `id`?
pub open spec fn in_lower_range(e: Extent, id: u32) -> bool {
    e.lower_first <= id && (id as int) < e.lower_first + e.count
}

/// The value an id inside `e`'s upper range translates down to:
/// `id - first + lower_first`, reduced modulo 2^32 as unsigned arithmetic
/// demands.  For the tables the kernel emits the reduction never bites,
/// because each lower range lies within the 32-bit id space.
pub open spec fn down_image(e: Extent, id: u32) -> u32 {
    (((id - e.first + e.lower_first) as int) % 0x1_0000_0000) as u32
}

/// The value an id inside `e`'s lower range translates up to:
/// `id - lower_first + first`, reduced modulo 2^32.
pub open spec fn up_image(e: Extent, id: u32) -> u32 {
    (((id - e.lower_first + e.first) as int) % 0x1_0000_0000) as u32
}

/// First-match scan of `exts` in table order: the downward translation of
/// `id`, or `OVERFLOW_ID` when no extent's upper range contains `id`.
pub open spec fn spec_map_down(exts: Seq<Extent>, id: u32) -> u32
    decreases exts.len(),
{
    if exts.len() == 0 {
        OVERFLOW_ID
    } else if in_upper_range(exts[0], id) {
        down_image(exts[0], id)
    } else {
        spec_map_down(exts.drop_first(), id)
    }
}

/// First-match scan of `exts` in table order: the upward translation of
/// `id`, or `OVERFLOW_ID` when no extent's lower range contains `id`.
pub open spec fn spec_map_up(exts: Seq<Extent>, id: u32) -> u32
    decreases exts.len(),
{
    if exts.len() == 0 {
        OVERFLOW_ID
    } else if in_lower_range(exts[0], id) {
        up_image(exts[0], id)
    } else {
        spec_map_up(exts.drop_first(), id)
    }
}

/// A per-process id-mapping table: at most [`MAX_EXTENTS`] extents in the
/// order the kernel listed them, plus the kind tag.  Immutable once built.
#[derive(Clone, Copy, Debug)]
pub struct IdMap {
    kind: Kind,
    nr_extents: usize,
    extent: [Extent; 5],
}

/// Skipping past an extent that does not match leaves the downward scan's
/// result unchanged.
proof fn lemma_map_down_skip(exts: Seq<Extent>, id: u32, k: int)
    requires
        0 <= k < exts.len(),
        !in_upper_range(exts[k], id),
    ensures
        spec_map_down(exts.skip(k), id) == spec_map_down(exts.skip(k + 1), id),
{
    assert(exts.skip(k).drop_first() =~= exts.skip(k + 1));
    assert(exts.skip(k)[0] == exts[k]);
}

/// Skipping past an extent that does not match leaves the upward scan's
/// result unchanged.
proof fn lemma_map_up_skip(exts: Seq<Extent>, id: u32, k: int)
    requires
        0 <= k < exts.len(),
        !in_lower_range(exts[k], id),
    ensures
        spec_map_up(exts.skip(k), id) == spec_map_up(exts.skip(k + 1), id),
{
    assert(exts.skip(k).drop_first() =~= exts.skip(k + 1));
    assert(exts.skip(k)[0] == exts[k]);
}

impl IdMap {
    /// The extents actually populated, in table order.
    pub closed spec fn extents(self) -> Seq<Extent> {
        self.extent@.take(self.nr_extents as int)
    }

    /// The kind tag the table was built with.
    pub closed spec fn map_kind(self) -> Kind {
        self.kind
    }

    #[verifier::type_invariant]
    spec fn capacity_inv(self) -> bool {
        self.nr_extents <= 5
    }

    /// Build a table directly from extents given in table order.  Returns
    /// `None` when more extents are supplied than the kernel permits per
    /// mapping.
    pub fn from_extents(kind: Kind, exts: &Vec<Extent>) -> (r: Option<IdMap>)
        ensures
            match r {
                Some(m) => {
                    &&& exts@.len() <= MAX_EXTENTS
                    &&& m.map_kind() == kind
                    &&& m.extents() == exts@
                },
                None => exts@.len() > MAX_EXTENTS,
            },
    {
        if exts.len() > MAX_EXTENTS {
            return None;
        }
        let mut extent: [Extent; 5] = [Extent { first: 0, lower_first: 0, count: 0 }; 5];
        let mut i: usize = 0;
        while i < exts.len()
            invariant
                i <= exts@.len(),
                exts@.len() <= 5,
                forall|k: int| 0 <= k < i ==> extent@[k] == exts@[k],
            decreases exts@.len() - i,
        {
            extent[i] = exts[i];
            i += 1;
        }
        let m = IdMap { kind, nr_extents: exts.len(), extent };
        proof {
            assert(m.extents() =~= exts@);
        }
        Some(m)
    }

    /// How many extents the table holds.
    pub fn nr_extents(&self) -> (n: usize)
        ensures
            n == self.extents().len(),
    {
        proof {
            use_type_invariant(self);
        }
        self.nr_extents
    }

    /// The kind tag the table was built with.
    pub fn kind(&self) -> (k: Kind)
        ensures
            k == self.map_kind(),
    {
        self.kind
    }

    /// The extent at position `i` in table order.
    pub fn extent_at(&self, i: usize) -> (e: Extent)
        requires
            i < self.extents().len(),
        ensures
            e == self.extents()[i as int],
    {
        proof {
            use_type_invariant(self);
        }
        self.extent[i]
    }

    /// Translate a global ("upper") id into the namespace: scan the extents
    /// in table order and translate by the first whose upper range contains
    /// `id`; return [`OVERFLOW_ID`] when none does.
    pub fn map_id_down(&self, id: u32) -> (r: u32)
        ensures
            r == spec_map_down(self.extents(), id),
    {
        proof {
            use_type_invariant(self);
        }
        let ghost exts = self.extents();
        let n = self.nr_extents;
        let mut idx: usize = 0;
        proof {
            assert(exts.skip(0) =~= exts);
        }
        while idx < n
            invariant
                idx <= n,
                n == self.nr_extents,
                n <= 5,
                exts == self.extents(),
                spec_map_down(exts, id) == spec_map_down(exts.skip(idx as int), id),
            decreases n - idx,
        {
            let e = self.extent[idx];
            proof {
                assert(e == exts[idx as int]);
                assert(exts.skip(idx as int)[0] == e);
            }
            if id >= e.first {
                let off = id - e.first;
                if off < e.count {
                    let wide: u64 = e.lower_first as u64 + off as u64;
                    let r = (wide % 0x1_0000_0000u64) as u32;
                    proof {
                        assert(in_upper_range(e, id));
                        assert(spec_map_down(exts.skip(idx as int), id) == down_image(e, id));
                        assert(r == down_image(e, id));
                    }
                    return r;
                }
            }
            proof {
                assert(!in_upper_range(e, id));
                lemma_map_down_skip(exts, id, idx as int);
            }
            idx += 1;
        }
        proof {
            assert(exts.skip(n as int) =~= Seq::<Extent>::empty());
        }
        OVERFLOW_ID
    }

    /// Translate a namespace ("lower") id outward to the global id space:
    /// scan the extents in table order and translate by the first whose
    /// lower range contains `id`; return [`OVERFLOW_ID`] when none does.
    pub fn map_id_up(&self, id: u32) -> (r: u32)
        ensures
            r == spec_map_up(self.extents(), id),
    {
        proof {
            use_type_invariant(self);
        }
        let ghost exts = self.extents();
        let n = self.nr_extents;
        let mut idx: usize = 0;
        proof {
            assert(exts.skip(0) =~= exts);
        }
        while idx < n
            invariant
                idx <= n,
                n == self.nr_extents,
                n <= 5,
                exts == self.extents(),
                spec_map_up(exts, id) == spec_map_up(exts.skip(idx as int), id),
            decreases n - idx,
        {
            let e = self.extent[idx];
            proof {
                assert(e == exts[idx as int]);
                assert(exts.skip(idx as int)[0] == e);
            }
            if id >= e.lower_first {
                let off = id - e.lower_first;
                if off < e.count {
                    let wide: u64 = e.first as u64 + off as u64;
                    let r = (wide % 0x1_0000_0000u64) as u32;
                    proof {
                        assert(in_lower_range(e, id));
                        assert(spec_map_up(exts.skip(idx as int), id) == up_image(e, id));
                        assert(r == up_image(e, id));
                    }
                    return r;
                }
            }
            proof {
                assert(!in_lower_range(e, id));
                lemma_map_up_skip(exts, id, idx as int);
            }
            idx += 1;
        }
        proof {
            assert(exts.skip(n as int) =~= Seq::<Extent>::empty());
        }
        OVERFLOW_ID
    }
}

impl Default for IdMap {
    /// The default identity map: a single extent `(0, 0, u32::MAX)`
    /// spanning the 32-bit id space, standing for "no remapping" before a
    /// real table has been read.
    fn default() -> (m: IdMap)
        ensures
            m.map_kind() == Kind::UidMap,
            m.extents() == seq![
                (Extent { first: 0, lower_first: 0, count: 0xffff_ffffu32 }),
            ],
    {
        let m = IdMap {
            kind: Kind::UidMap,
            nr_extents: 1,
            extent: [Extent { first: 0, lower_first: 0, count: 0xffff_ffff }; 5],
        };
        proof {
            assert(m.extents() =~= seq![
                (Extent { first: 0, lower_first: 0, count: 0xffff_ffffu32 }),
            ]);
        }
        m
    }
}

} // verus!
