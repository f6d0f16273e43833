//! The memo table of the dynamic program over quantised flight states.
use vstd::prelude::*;
use ahash::AHashMap;
use crate::grid::GridMeta;
use crate::ahash_map::{memo_map_contents, memo_map_get, memo_map_insert, memo_map_new};

verus! {

/// Bit pattern of `0.0_f64`: the height at which a key built from a velocity
/// starts.
pub const Y_POS_INIT: u64 = 0;

/// The key of a lattice point in the memo table: its three coordinates.
pub type MemoKey = (u64, u64, u64);

/// The ranges and resolutions of the three axes of the dynamic program:
/// height, vertical velocity and horizontal velocity. Bounds are `f64` bit
/// patterns.
#[derive(Debug, Clone)]
pub struct DPMeta {
    pub y_pos_lo: u64,
    pub y_pos_hi: u64,
    pub y_vel_lo: u64,
    pub y_vel_hi: u64,
    pub z_vel_lo: u64,
    pub z_vel_hi: u64,
    pub y_pos_width: usize,
    pub y_vel_width: usize,
    pub z_vel_width: usize,
}

impl DPMeta {
    /// Takes the velocity ranges and resolutions of a velocity grid (its rows
    /// run along the vertical velocity, its columns along the horizontal one)
    /// and adds a height axis.
    pub fn from_grid_meta(grid_meta: &GridMeta, y_pos_lo: u64, y_pos_hi: u64, y_pos_width: usize) -> (r:
        Self)
        ensures
            r.y_pos_lo == y_pos_lo,
            r.y_pos_hi == y_pos_hi,
            r.y_vel_lo == grid_meta.y_vel_lo,
            r.y_vel_hi == grid_meta.y_vel_hi,
            r.z_vel_lo == grid_meta.z_vel_lo,
            r.z_vel_hi == grid_meta.z_vel_hi,
            r.y_pos_width == y_pos_width,
            r.y_vel_width == grid_meta.height,
            r.z_vel_width == grid_meta.width,
    {
        DPMeta {
            y_pos_lo,
            y_pos_hi,
            y_vel_lo: grid_meta.y_vel_lo,
            y_vel_hi: grid_meta.y_vel_hi,
            z_vel_lo: grid_meta.z_vel_lo,
            z_vel_hi: grid_meta.z_vel_hi,
            y_pos_width,
            y_vel_width: grid_meta.height,
            z_vel_width: grid_meta.width,
        }
    }
}

/// A flight state reduced to what the dynamic program tracks: height,
/// vertical velocity and horizontal velocity, as `f64` bit patterns.
#[derive(Debug, Clone, Copy, Hash)]
pub struct DPKey {
    pub y_pos: u64,
    pub y_vel: u64,
    pub z_vel: u64,
}

impl DPKey {
    /// The key of a flight that starts at height zero with the given velocity.
    pub fn from_yz_vel(y_vel: u64, z_vel: u64) -> (r: Self)
        ensures
            r.y_pos == Y_POS_INIT,
            r.y_vel == y_vel,
            r.z_vel == z_vel,
    {
        DPKey { y_pos: Y_POS_INIT, y_vel, z_vel }
    }
}

/// A key on the lattice of the memo table. Two representatives are the same
/// exactly when their three coordinates have the same bit patterns.
#[derive(Debug, Clone, Copy, Hash)]
pub struct DPKeyRepresentative(pub DPKey);

impl DPKeyRepresentative {
    /// The key under which the memo table stores this representative.
    pub open spec fn key(self) -> MemoKey {
        (self.0.y_pos, self.0.y_vel, self.0.z_vel)
    }

    fn to_array(self) -> (r: [u64; 3])
        ensures
            r@ == seq![self.0.y_pos, self.0.y_vel, self.0.z_vel],
    {
        [self.0.y_pos, self.0.y_vel, self.0.z_vel]
    }

    fn map_key(&self) -> (r: MemoKey)
        ensures
            r == self.key(),
    {
        (self.0.y_pos, self.0.y_vel, self.0.z_vel)
    }
}

impl PartialEq for DPKeyRepresentative {
    fn eq(&self, other: &Self) -> (r: bool) {
        let a = self.to_array();
        let b = other.to_array();
        a[0] == b[0] && a[1] == b[1] && a[2] == b[2]
    }
}

impl vstd::std_specs::cmp::PartialEqSpecImpl for DPKeyRepresentative {
    open spec fn obeys_eq_spec() -> bool {
        true
    }

    open spec fn eq_spec(&self, other: &Self) -> bool {
        self.key() == other.key()
    }
}

impl Eq for DPKeyRepresentative {}

/// Comparing representatives: two representatives are equal exactly when
/// their heights, their vertical velocities and their horizontal velocities
/// have the same bit patterns.
pub proof fn law_representative_eq(a: DPKeyRepresentative, b: DPKeyRepresentative, r: bool)
    requires
        call_ensures(DPKeyRepresentative::eq, (&a, &b), r),
    ensures
        r <==> (a.0.y_pos == b.0.y_pos && a.0.y_vel == b.0.y_vel && a.0.z_vel == b.0.z_vel),
{
}

/// The `i`-th corner, `0 <= i < 8`, of the lattice box between `lo` and `hi`:
/// bit 2 of `i` picks the height, bit 1 the vertical velocity and bit 0 the
/// horizontal velocity from `hi` when set, from `lo` when clear.
pub open spec fn corner(lo: DPKeyRepresentative, hi: DPKeyRepresentative, i: int) -> DPKeyRepresentative {
    DPKeyRepresentative(
        DPKey {
            y_pos: if (i / 4) % 2 == 0 { lo.0.y_pos } else { hi.0.y_pos },
            y_vel: if (i / 2) % 2 == 0 { lo.0.y_vel } else { hi.0.y_vel },
            z_vel: if i % 2 == 0 { lo.0.z_vel } else { hi.0.z_vel },
        },
    )
}

fn corner_at(lo: &DPKeyRepresentative, hi: &DPKeyRepresentative, i: u8) -> (r: DPKeyRepresentative)
    requires
        i < 8,
    ensures
        r == corner(*lo, *hi, i as int),
{
    assert((i & 4 == 0) == ((i / 4) % 2 == 0)) by (bit_vector)
        requires
            i < 8,
    ;
    assert((i & 2 == 0) == ((i / 2) % 2 == 0)) by (bit_vector)
        requires
            i < 8,
    ;
    assert((i & 1 == 0) == (i % 2 == 0)) by (bit_vector)
        requires
            i < 8,
    ;
    let y_pos = if i & 4 == 0 { lo.0.y_pos } else { hi.0.y_pos };
    let y_vel = if i & 2 == 0 { lo.0.y_vel } else { hi.0.y_vel };
    let z_vel = if i & 1 == 0 { lo.0.z_vel } else { hi.0.z_vel };
    DPKeyRepresentative(DPKey { y_pos, y_vel, z_vel })
}

/// The eight corners of the lattice box between `lo` and `hi`, in the order
/// of [`corner`].
pub fn corner_keys(lo: &DPKeyRepresentative, hi: &DPKeyRepresentative) -> (r: [DPKeyRepresentative; 8])
    ensures
        forall|i: int| 0 <= i < 8 ==> #[trigger] r@[i] == corner(*lo, *hi, i),
{
    [
        corner_at(lo, hi, 0),
        corner_at(lo, hi, 1),
        corner_at(lo, hi, 2),
        corner_at(lo, hi, 3),
        corner_at(lo, hi, 4),
        corner_at(lo, hi, 5),
        corner_at(lo, hi, 6),
        corner_at(lo, hi, 7),
    ]
}

/// Listing the corners of a box: the corner with index `i` takes its height
/// from `hi` when bit 2 of `i` is set and from `lo` otherwise, its vertical
/// velocity from `hi` when bit 1 is set, and its horizontal velocity from
/// `hi` when bit 0 is set, whatever the order of the bit patterns; so the
/// first corner is `lo` and the last is `hi`.
pub proof fn law_corner_keys(
    lo: DPKeyRepresentative,
    hi: DPKeyRepresentative,
    keys: [DPKeyRepresentative; 8],
)
    requires
        call_ensures(corner_keys, (&lo, &hi), keys),
    ensures
        keys@[0].0 == (DPKey { y_pos: lo.0.y_pos, y_vel: lo.0.y_vel, z_vel: lo.0.z_vel }),
        keys@[1].0 == (DPKey { y_pos: lo.0.y_pos, y_vel: lo.0.y_vel, z_vel: hi.0.z_vel }),
        keys@[2].0 == (DPKey { y_pos: lo.0.y_pos, y_vel: hi.0.y_vel, z_vel: lo.0.z_vel }),
        keys@[3].0 == (DPKey { y_pos: lo.0.y_pos, y_vel: hi.0.y_vel, z_vel: hi.0.z_vel }),
        keys@[4].0 == (DPKey { y_pos: hi.0.y_pos, y_vel: lo.0.y_vel, z_vel: lo.0.z_vel }),
        keys@[5].0 == (DPKey { y_pos: hi.0.y_pos, y_vel: lo.0.y_vel, z_vel: hi.0.z_vel }),
        keys@[6].0 == (DPKey { y_pos: hi.0.y_pos, y_vel: hi.0.y_vel, z_vel: lo.0.z_vel }),
        keys@[7].0 == (DPKey { y_pos: hi.0.y_pos, y_vel: hi.0.y_vel, z_vel: hi.0.z_vel }),
{
}

/// What the memo table stores for a key: the pitch to fly now (`None` at the
/// last tick) and the best goodness reachable, as `f32` and `f64` bit
/// patterns.
#[derive(Debug, Clone, Copy)]
pub struct DPValue {
    pub pitch: Option<u32>,
    pub goodness: u64,
}

/// The corner of the box between `lo` and `hi` with index `i` has an entry in `m`.
pub open spec fn corner_present(
    m: Map<MemoKey, DPValue>,
    lo: DPKeyRepresentative,
    hi: DPKeyRepresentative,
    i: int,
) -> bool {
    m.dom().contains(corner(lo, hi, i).key())
}

/// All eight corners of the box between `lo` and `hi` have an entry in `m`.
pub open spec fn all_corners_present(
    m: Map<MemoKey, DPValue>,
    lo: DPKeyRepresentative,
    hi: DPKeyRepresentative,
) -> bool {
    forall|i: int| 0 <= i < 8 ==> #[trigger] corner_present(m, lo, hi, i)
}

/// The corners among the first `n` of the box between `lo` and `hi` that
/// have no entry in `m`, in corner order.
pub open spec fn missing_corners(
    m: Map<MemoKey, DPValue>,
    lo: DPKeyRepresentative,
    hi: DPKeyRepresentative,
    n: nat,
) -> Seq<DPKeyRepresentative>
    decreases n,
{
    if n == 0 {
        Seq::empty()
    } else {
        let earlier = missing_corners(m, lo, hi, (n - 1) as nat);
        if corner_present(m, lo, hi, n - 1) {
            earlier
        } else {
            earlier.push(corner(lo, hi, n - 1))
        }
    }
}

/// `m` after storing `vals[j]` under the key of `reps[j]`, for each `j` in turn.
pub open spec fn filled(
    m: Map<MemoKey, DPValue>,
    reps: Seq<DPKeyRepresentative>,
    vals: Seq<DPValue>,
) -> Map<MemoKey, DPValue>
    decreases reps.len(),
{
    if reps.len() == 0 {
        m
    } else {
        filled(m, reps.drop_last(), vals.take(reps.len() - 1)).insert(
            reps.last().key(),
            vals[reps.len() - 1],
        )
    }
}

/// No key of `reps` has an entry in `m`, and no two of them are the same.
pub open spec fn all_fresh(m: Map<MemoKey, DPValue>, reps: Seq<DPKeyRepresentative>) -> bool {
    &&& forall|j: int| 0 <= j < reps.len() ==> !m.dom().contains(#[trigger] reps[j].key())
    &&& forall|j: int, k: int|
        0 <= j < k < reps.len() ==> #[trigger] reps[j].key() != #[trigger] reps[k].key()
}

/// The memo table for one tick: the value of each lattice key computed so far.
pub struct GoodnessAtTick(pub AHashMap<MemoKey, DPValue>);

impl View for GoodnessAtTick {
    type V = Map<MemoKey, DPValue>;

    open spec fn view(&self) -> Map<MemoKey, DPValue> {
        memo_map_contents(self.0)
    }
}

impl GoodnessAtTick {
    /// A table with no entry.
    pub fn empty() -> (r: Self)
        ensures
            r@ == Map::<MemoKey, DPValue>::empty(),
    {
        GoodnessAtTick(memo_map_new())
    }

    /// The stored values of the eight corners of the box between `lo` and
    /// `hi`, in corner order; or, when some corner has no entry, the corners
    /// that have none, in corner order.
    pub fn corner_values(&self, lo: &DPKeyRepresentative, hi: &DPKeyRepresentative) -> (r: Result<
        [DPValue; 8],
        Vec<DPKeyRepresentative>,
    >)
        ensures
            r is Ok <==> all_corners_present(self@, *lo, *hi),
            r matches Ok(vals) ==> forall|i: int|
                0 <= i < 8 ==> #[trigger] vals@[i] == self@[corner(*lo, *hi, i).key()],
            r matches Err(missing) ==> missing@ == missing_corners(self@, *lo, *hi, 8),
    {
        let keys = corner_keys(lo, hi);
        let mut values: Vec<DPValue> = Vec::new();
        let mut missing: Vec<DPKeyRepresentative> = Vec::new();
        let mut i: usize = 0;
        while i < 8
            invariant
                0 <= i <= 8,
                forall|j: int| 0 <= j < 8 ==> #[trigger] keys@[j] == corner(*lo, *hi, j),
                missing@ == missing_corners(self@, *lo, *hi, i as nat),
                missing@.len() == 0 <==> (forall|j: int|
                    0 <= j < i ==> #[trigger] corner_present(self@, *lo, *hi, j)),
                missing@.len() == 0 ==> values@.len() == i,
                missing@.len() == 0 ==> forall|j: int|
                    0 <= j < i ==> #[trigger] values@[j] == self@[corner(*lo, *hi, j).key()],
            decreases 8 - i,
        {
            let key = keys[i].map_key();
            match memo_map_get(&self.0, &key) {
                Some(v) => {
                    proof {
                        assert(corner_present(self@, *lo, *hi, i as int));
                    }
                    values.push(v);
                },
                None => {
                    proof {
                        assert(!corner_present(self@, *lo, *hi, i as int));
                    }
                    missing.push(keys[i]);
                },
            }
            i = i + 1;
        }
        if missing.len() == 0 {
            Ok(
                [
                    values[0],
                    values[1],
                    values[2],
                    values[3],
                    values[4],
                    values[5],
                    values[6],
                    values[7],
                ],
            )
        } else {
            Err(missing)
        }
    }

    /// Stores `values[j]` under the key of `reps[j]`, for each `j` in turn.
    /// Returns whether every key was new to the table and to the keys
    /// stored before it.
    pub fn fill(&mut self, reps: &Vec<DPKeyRepresentative>, values: &Vec<DPValue>) -> (fresh: bool)
        requires
            reps@.len() == values@.len(),
        ensures
            final(self)@ == filled(old(self)@, reps@, values@),
            fresh == all_fresh(old(self)@, reps@),
            forall|j: int|
                0 <= j < reps@.len() ==> final(self)@.dom().contains(
                    (#[trigger] reps@[j].0.y_pos, reps@[j].0.y_vel, reps@[j].0.z_vel),
                ),
            forall|j: int|
                0 <= j < reps@.len() && (forall|l: int|
                    j < l < reps@.len() ==> reps@[l].0 != reps@[j].0) ==> final(self)@[(
                    #[trigger] reps@[j].0.y_pos,
                    reps@[j].0.y_vel,
                    reps@[j].0.z_vel,
                )] == values@[j],
            forall|k: MemoKey|
                (forall|j: int|
                    0 <= j < reps@.len() ==> (reps@[j].0.y_pos, reps@[j].0.y_vel, reps@[j].0.z_vel)
                        != k) ==> {
                    &&& #[trigger] final(self)@.dom().contains(k) == old(self)@.dom().contains(k)
                    &&& old(self)@.dom().contains(k) ==> final(self)@[k] == old(self)@[k]
                },
            fresh <==> {
                &&& forall|j: int|
                    0 <= j < reps@.len() ==> !old(self)@.dom().contains(
                        (#[trigger] reps@[j].0.y_pos, reps@[j].0.y_vel, reps@[j].0.z_vel),
                    )
                &&& forall|j: int, k: int|
                    0 <= j < k < reps@.len() ==> #[trigger] reps@[j].0 != #[trigger] reps@[k].0
            },
    {
        let ghost m0 = self@;
        let mut fresh = true;
        let mut i: usize = 0;
        while i < reps.len()
            invariant
                0 <= i <= reps@.len(),
                reps@.len() == values@.len(),
                self@ == filled(m0, reps@.take(i as int), values@.take(i as int)),
                fresh == all_fresh(m0, reps@.take(i as int)),
            decreases reps@.len() - i,
        {
            let rep = reps[i];
            proof {
                lemma_filled_dom(m0, reps@.take(i as int), values@.take(i as int));
                assert(reps@.take(i + 1).drop_last() =~= reps@.take(i as int));
                assert(values@.take(i + 1).take(i as int) =~= values@.take(i as int));
            }
            let old_value = memo_map_insert(&mut self.0, rep.map_key(), values[i]);
            proof {
                let t = reps@.take(i as int);
                let t1 = reps@.take(i + 1);
                assert(t1[i as int] == rep);
                if old_value is Some {
                    let k = rep.key();
                    if !m0.dom().contains(k) {
                        let j = choose|j: int| 0 <= j < t.len() && #[trigger] t[j].key() == k;
                        assert(t1[j] == t[j]);
                        assert(t1[j].key() == t1[i as int].key());
                    }
                    assert(!all_fresh(m0, t1));
                } else {
                    assert(all_fresh(m0, t) ==> all_fresh(m0, t1)) by {
                        if all_fresh(m0, t) {
                            assert forall|j: int, k: int|
                                0 <= j < k < t1.len() implies #[trigger] t1[j].key()
                                != #[trigger] t1[k].key() by {
                                if k == i {
                                    assert(t1[j] == t[j]);
                                } else {
                                    assert(t1[j] == t[j] && t1[k] == t[k]);
                                }
                            }
                        }
                    }
                    assert(all_fresh(m0, t1) ==> all_fresh(m0, t)) by {
                        if all_fresh(m0, t1) {
                            assert forall|j: int, k: int|
                                0 <= j < k < t.len() implies #[trigger] t[j].key()
                                != #[trigger] t[k].key() by {
                                assert(t1[j] == t[j] && t1[k] == t[k]);
                            }
                            assert forall|j: int|
                                0 <= j < t.len() implies !m0.dom().contains(
                                #[trigger] t[j].key(),
                            ) by {
                                assert(t1[j] == t[j]);
                            }
                        }
                    }
                }
            }
            fresh = fresh && old_value.is_none();
            i = i + 1;
        }
        proof {
            assert(reps@.take(reps@.len() as int) =~= reps@);
            assert(values@.take(values@.len() as int) =~= values@);
            lemma_filled_last_write(m0, reps@, values@);
            let rs = reps@;
            assert(all_fresh(m0, rs) <==> {
                &&& forall|j: int|
                    0 <= j < rs.len() ==> !m0.dom().contains(
                        (#[trigger] rs[j].0.y_pos, rs[j].0.y_vel, rs[j].0.z_vel),
                    )
                &&& forall|j: int, k: int|
                    0 <= j < k < rs.len() ==> #[trigger] rs[j].0 != #[trigger] rs[k].0
            }) by {
                if all_fresh(m0, rs) {
                    assert forall|j: int| 0 <= j < rs.len() implies !m0.dom().contains(
                        (#[trigger] rs[j].0.y_pos, rs[j].0.y_vel, rs[j].0.z_vel),
                    ) by {
                        assert(!m0.dom().contains(rs[j].key()));
                    }
                    assert forall|j: int, k: int| 0 <= j < k < rs.len() implies #[trigger] rs[j].0
                        != #[trigger] rs[k].0 by {
                        assert(rs[j].key() != rs[k].key());
                    }
                }
                if (forall|j: int|
                    0 <= j < rs.len() ==> !m0.dom().contains(
                        (#[trigger] rs[j].0.y_pos, rs[j].0.y_vel, rs[j].0.z_vel),
                    )) && (forall|j: int, k: int|
                    0 <= j < k < rs.len() ==> #[trigger] rs[j].0 != #[trigger] rs[k].0) {
                    assert forall|j: int| 0 <= j < rs.len() implies !m0.dom().contains(
                        #[trigger] rs[j].key(),
                    ) by {
                        assert(!m0.dom().contains((rs[j].0.y_pos, rs[j].0.y_vel, rs[j].0.z_vel)));
                    }
                    assert forall|j: int, k: int| 0 <= j < k < rs.len() implies #[trigger] rs[j].key()
                        != #[trigger] rs[k].key() by {
                        assert(rs[j].0 != rs[k].0);
                    }
                }
            }
        }
        fresh
    }
}

/// Reading a box from a memo table: it succeeds exactly when the eight
/// corners of the box (each coordinate taken from `lo` or from `hi`) have an
/// entry, and then the value of the corner with index `i` (height from `hi`
/// when bit 2 of `i` is set, vertical velocity when bit 1 is, horizontal
/// velocity when bit 0 is) is in place `i`; otherwise it lists corners of the
/// box without an entry, and every such corner.
pub proof fn law_corner_values(
    t: GoodnessAtTick,
    lo: DPKeyRepresentative,
    hi: DPKeyRepresentative,
    r: Result<[DPValue; 8], Vec<DPKeyRepresentative>>,
)
    requires
        call_ensures(GoodnessAtTick::corner_values, (&t, &lo, &hi), r),
    ensures
        r is Ok <==> {
            &&& t@.dom().contains((lo.0.y_pos, lo.0.y_vel, lo.0.z_vel))
            &&& t@.dom().contains((lo.0.y_pos, lo.0.y_vel, hi.0.z_vel))
            &&& t@.dom().contains((lo.0.y_pos, hi.0.y_vel, lo.0.z_vel))
            &&& t@.dom().contains((lo.0.y_pos, hi.0.y_vel, hi.0.z_vel))
            &&& t@.dom().contains((hi.0.y_pos, lo.0.y_vel, lo.0.z_vel))
            &&& t@.dom().contains((hi.0.y_pos, lo.0.y_vel, hi.0.z_vel))
            &&& t@.dom().contains((hi.0.y_pos, hi.0.y_vel, lo.0.z_vel))
            &&& t@.dom().contains((hi.0.y_pos, hi.0.y_vel, hi.0.z_vel))
        },
        r matches Ok(vals) ==> {
            &&& vals@[0] == t@[(lo.0.y_pos, lo.0.y_vel, lo.0.z_vel)]
            &&& vals@[1] == t@[(lo.0.y_pos, lo.0.y_vel, hi.0.z_vel)]
            &&& vals@[2] == t@[(lo.0.y_pos, hi.0.y_vel, lo.0.z_vel)]
            &&& vals@[3] == t@[(lo.0.y_pos, hi.0.y_vel, hi.0.z_vel)]
            &&& vals@[4] == t@[(hi.0.y_pos, lo.0.y_vel, lo.0.z_vel)]
            &&& vals@[5] == t@[(hi.0.y_pos, lo.0.y_vel, hi.0.z_vel)]
            &&& vals@[6] == t@[(hi.0.y_pos, hi.0.y_vel, lo.0.z_vel)]
            &&& vals@[7] == t@[(hi.0.y_pos, hi.0.y_vel, hi.0.z_vel)]
        },
        r matches Err(missing) ==> forall|j: int|
            0 <= j < missing@.len() ==> {
                let k = #[trigger] missing@[j].0;
                &&& !t@.dom().contains((k.y_pos, k.y_vel, k.z_vel))
                &&& k.y_pos == lo.0.y_pos || k.y_pos == hi.0.y_pos
                &&& k.y_vel == lo.0.y_vel || k.y_vel == hi.0.y_vel
                &&& k.z_vel == lo.0.z_vel || k.z_vel == hi.0.z_vel
            },
        r matches Err(missing) ==> forall|a: u64, b: u64, c: u64|
            (a == lo.0.y_pos || a == hi.0.y_pos) && (b == lo.0.y_vel || b == hi.0.y_vel) && (c
                == lo.0.z_vel || c == hi.0.z_vel) && !#[trigger] t@.dom().contains((a, b, c))
                ==> exists|j: int|
                0 <= j < missing@.len() && #[trigger] missing@[j].0 == (DPKey {
                    y_pos: a,
                    y_vel: b,
                    z_vel: c,
                }),
{
    let m = t@;
    assert(corner(lo, hi, 0).key() == (lo.0.y_pos, lo.0.y_vel, lo.0.z_vel));
    assert(corner(lo, hi, 1).key() == (lo.0.y_pos, lo.0.y_vel, hi.0.z_vel));
    assert(corner(lo, hi, 2).key() == (lo.0.y_pos, hi.0.y_vel, lo.0.z_vel));
    assert(corner(lo, hi, 3).key() == (lo.0.y_pos, hi.0.y_vel, hi.0.z_vel));
    assert(corner(lo, hi, 4).key() == (hi.0.y_pos, lo.0.y_vel, lo.0.z_vel));
    assert(corner(lo, hi, 5).key() == (hi.0.y_pos, lo.0.y_vel, hi.0.z_vel));
    assert(corner(lo, hi, 6).key() == (hi.0.y_pos, hi.0.y_vel, lo.0.z_vel));
    assert(corner(lo, hi, 7).key() == (hi.0.y_pos, hi.0.y_vel, hi.0.z_vel));
    assert(all_corners_present(m, lo, hi) <==> {
        &&& corner_present(m, lo, hi, 0)
        &&& corner_present(m, lo, hi, 1)
        &&& corner_present(m, lo, hi, 2)
        &&& corner_present(m, lo, hi, 3)
        &&& corner_present(m, lo, hi, 4)
        &&& corner_present(m, lo, hi, 5)
        &&& corner_present(m, lo, hi, 6)
        &&& corner_present(m, lo, hi, 7)
    }) by {
        if corner_present(m, lo, hi, 0) && corner_present(m, lo, hi, 1) && corner_present(
            m,
            lo,
            hi,
            2,
        ) && corner_present(m, lo, hi, 3) && corner_present(m, lo, hi, 4) && corner_present(
            m,
            lo,
            hi,
            5,
        ) && corner_present(m, lo, hi, 6) && corner_present(m, lo, hi, 7) {
            assert forall|i: int| 0 <= i < 8 implies #[trigger] corner_present(m, lo, hi, i) by {
                assert(i == 0 || i == 1 || i == 2 || i == 3 || i == 4 || i == 5 || i == 6 || i
                    == 7);
            }
        }
    }
    if let Err(missing) = r {
        let miss = missing_corners(m, lo, hi, 8);
        assert(missing@ == miss);
        lemma_missing_corners_sound(m, lo, hi, 8);
        lemma_missing_corners_cover(m, lo, hi, 8);
        assert forall|j: int| 0 <= j < missing@.len() implies {
            let k = #[trigger] missing@[j].0;
            &&& !m.dom().contains((k.y_pos, k.y_vel, k.z_vel))
            &&& k.y_pos == lo.0.y_pos || k.y_pos == hi.0.y_pos
            &&& k.y_vel == lo.0.y_vel || k.y_vel == hi.0.y_vel
            &&& k.z_vel == lo.0.z_vel || k.z_vel == hi.0.z_vel
        } by {
            let i = choose|i: int|
                0 <= i < 8 && !corner_present(m, lo, hi, i) && #[trigger] miss[j] == corner(
                    lo,
                    hi,
                    i,
                );
            assert(miss[j].key() == (miss[j].0.y_pos, miss[j].0.y_vel, miss[j].0.z_vel));
        }
        assert forall|a: u64, b: u64, c: u64|
            (a == lo.0.y_pos || a == hi.0.y_pos) && (b == lo.0.y_vel || b == hi.0.y_vel) && (c
                == lo.0.z_vel || c == hi.0.z_vel) && !#[trigger] m.dom().contains(
                (a, b, c),
            ) implies exists|j: int|
            0 <= j < missing@.len() && #[trigger] missing@[j].0 == (DPKey {
                y_pos: a,
                y_vel: b,
                z_vel: c,
            }) by {
            let i: int = (if a == lo.0.y_pos { 0int } else { 4int }) + (if b == lo.0.y_vel {
                0int
            } else {
                2int
            }) + (if c == lo.0.z_vel { 0int } else { 1int });
            assert(corner(lo, hi, i).0 == (DPKey { y_pos: a, y_vel: b, z_vel: c }));
            assert(!corner_present(m, lo, hi, i));
            assert(miss.contains(corner(lo, hi, i)));
            let j = choose|j: int| 0 <= j < miss.len() && miss[j] == corner(lo, hi, i);
            assert(missing@[j].0 == (DPKey { y_pos: a, y_vel: b, z_vel: c }));
        }
    }
}

/// The keys that `filled` touches are the keys of `m` and those of `reps`.
pub proof fn lemma_filled_dom(
    m: Map<MemoKey, DPValue>,
    reps: Seq<DPKeyRepresentative>,
    vals: Seq<DPValue>,
)
    requires
        reps.len() == vals.len(),
    ensures
        forall|k: MemoKey| #[trigger]
            filled(m, reps, vals).dom().contains(k) <==> (m.dom().contains(k) || exists|j: int|
                0 <= j < reps.len() && #[trigger] reps[j].key() == k),
    decreases reps.len(),
{
    if reps.len() > 0 {
        let r = reps.drop_last();
        let v = vals.take(reps.len() - 1);
        lemma_filled_dom(m, r, v);
        assert(reps.last() == reps[reps.len() - 1]);
        assert(filled(m, reps, vals) == filled(m, r, v).insert(
            reps.last().key(),
            vals[reps.len() - 1],
        ));
        assert forall|k: MemoKey| #[trigger]
            filled(m, reps, vals).dom().contains(k) <==> (m.dom().contains(k) || exists|j: int|
                0 <= j < reps.len() && #[trigger] reps[j].key() == k) by {
            if filled(m, reps, vals).dom().contains(k) && !m.dom().contains(k) {
                if k == reps.last().key() {
                    assert(reps[reps.len() - 1].key() == k);
                } else {
                    assert(filled(m, r, v).dom().contains(k));
                    let j = choose|j: int| 0 <= j < r.len() && #[trigger] r[j].key() == k;
                    assert(r[j] == reps[j]);
                    assert(reps[j].key() == k);
                }
            }
            if exists|j: int| 0 <= j < reps.len() && #[trigger] reps[j].key() == k {
                let j = choose|j: int| 0 <= j < reps.len() && #[trigger] reps[j].key() == k;
                if j < reps.len() - 1 {
                    assert(r[j] == reps[j]);
                    assert(r[j].key() == k);
                    assert(filled(m, r, v).dom().contains(k));
                }
            }
            if m.dom().contains(k) {
                assert(filled(m, r, v).dom().contains(k));
            }
        }
    }
}


/// Storing in turn: after storing `vals[j]` under the key of `reps[j]` for
/// each `j` in turn, every stored key has an entry; a key reads back the value
/// stored last under it, whether or not it had an entry before; and a key
/// that nothing was stored under keeps its entry, or its absence.
pub proof fn lemma_filled_last_write(
    m: Map<MemoKey, DPValue>,
    reps: Seq<DPKeyRepresentative>,
    vals: Seq<DPValue>,
)
    requires
        reps.len() == vals.len(),
    ensures
        forall|j: int|
            0 <= j < reps.len() ==> filled(m, reps, vals).dom().contains(
                (#[trigger] reps[j].0.y_pos, reps[j].0.y_vel, reps[j].0.z_vel),
            ),
        forall|j: int|
            0 <= j < reps.len() && (forall|l: int| j < l < reps.len() ==> reps[l].0 != reps[j].0)
                ==> filled(m, reps, vals)[(#[trigger] reps[j].0.y_pos, reps[j].0.y_vel, reps[j].0.z_vel)]
                == vals[j],
        forall|k: MemoKey|
            (forall|j: int| 0 <= j < reps.len() ==> (reps[j].0.y_pos, reps[j].0.y_vel, reps[j].0.z_vel)
                != k) ==> {
                &&& #[trigger] filled(m, reps, vals).dom().contains(k) == m.dom().contains(k)
                &&& m.dom().contains(k) ==> filled(m, reps, vals)[k] == m[k]
            },
    decreases reps.len(),
{
    if reps.len() > 0 {
        let n = reps.len() - 1;
        let r = reps.drop_last();
        let v = vals.take(n);
        lemma_filled_last_write(m, r, v);
        let kn = (reps[n].0.y_pos, reps[n].0.y_vel, reps[n].0.z_vel);
        assert(reps.last() == reps[n]);
        assert(filled(m, reps, vals) == filled(m, r, v).insert(kn, vals[n]));
        assert forall|j: int| 0 <= j < reps.len() implies filled(m, reps, vals).dom().contains(
            (#[trigger] reps[j].0.y_pos, reps[j].0.y_vel, reps[j].0.z_vel),
        ) by {
            if j < n {
                assert(r[j] == reps[j]);
                assert(filled(m, r, v).dom().contains((r[j].0.y_pos, r[j].0.y_vel, r[j].0.z_vel)));
            }
        }
        assert forall|j: int|
            0 <= j < reps.len() && (forall|l: int| j < l < reps.len() ==> reps[l].0 != reps[j].0)
                implies filled(m, reps, vals)[(#[trigger] reps[j].0.y_pos, reps[j].0.y_vel, reps[j].0.z_vel)]
            == vals[j] by {
            if j < n {
                assert(reps[n].0 != reps[j].0);
                assert(r[j] == reps[j]);
                assert forall|l: int| j < l < r.len() implies r[l].0 != r[j].0 by {
                    assert(r[l] == reps[l]);
                }
                assert(filled(m, r, v)[(r[j].0.y_pos, r[j].0.y_vel, r[j].0.z_vel)] == v[j]);
                assert(v[j] == vals[j]);
            }
        }
        assert forall|k: MemoKey|
            (forall|j: int| 0 <= j < reps.len() ==> (reps[j].0.y_pos, reps[j].0.y_vel, reps[j].0.z_vel)
                != k) implies {
                &&& #[trigger] filled(m, reps, vals).dom().contains(k) == m.dom().contains(k)
                &&& m.dom().contains(k) ==> filled(m, reps, vals)[k] == m[k]
            } by {
            assert(kn != k);
            assert forall|j: int| 0 <= j < r.len() implies (r[j].0.y_pos, r[j].0.y_vel, r[j].0.z_vel)
                != k by {
                assert(r[j] == reps[j]);
            }
            assert(filled(m, r, v).dom().contains(k) == m.dom().contains(k));
        }
    }
}

/// Reading after filling: when the stored keys are fresh, each one reads
/// back the value stored under it, and every entry that was there before
/// reads back unchanged.
pub proof fn lemma_filled_reads(
    m: Map<MemoKey, DPValue>,
    reps: Seq<DPKeyRepresentative>,
    vals: Seq<DPValue>,
)
    requires
        reps.len() == vals.len(),
        all_fresh(m, reps),
    ensures
        forall|j: int|
            0 <= j < reps.len() ==> filled(m, reps, vals)[#[trigger] reps[j].key()] == vals[j],
        forall|k: MemoKey| #[trigger]
            m.dom().contains(k) ==> filled(m, reps, vals)[k] == m[k],
    decreases reps.len(),
{
    if reps.len() > 0 {
        let n = reps.len() - 1;
        let r = reps.drop_last();
        let v = vals.take(n);
        assert(all_fresh(m, r)) by {
            assert forall|j: int| 0 <= j < r.len() implies !m.dom().contains(#[trigger] r[j].key()) by {
                assert(r[j] == reps[j]);
            }
            assert forall|j: int, k: int| 0 <= j < k < r.len() implies #[trigger] r[j].key()
                != #[trigger] r[k].key() by {
                assert(r[j] == reps[j] && r[k] == reps[k]);
            }
        }
        lemma_filled_reads(m, r, v);
        assert(reps.last() == reps[n]);
        assert(filled(m, reps, vals) == filled(m, r, v).insert(reps[n].key(), vals[n]));
        assert forall|j: int| 0 <= j < reps.len() implies filled(m, reps, vals)[
            #[trigger] reps[j].key()] == vals[j] by {
            if j < n {
                assert(r[j] == reps[j]);
                assert(reps[j].key() != reps[n].key());
                assert(v[j] == vals[j]);
            }
        }
        assert forall|k: MemoKey| #[trigger] m.dom().contains(k) implies filled(m, reps, vals)[k]
            == m[k] by {
            assert(k != reps[n].key());
        }
    }
}

/// Every corner among the first `n` either has an entry in `m` or is listed
/// among the missing ones.
proof fn lemma_missing_corners_cover(
    m: Map<MemoKey, DPValue>,
    lo: DPKeyRepresentative,
    hi: DPKeyRepresentative,
    n: nat,
)
    ensures
        forall|i: int|
            0 <= i < n && !#[trigger] corner_present(m, lo, hi, i) ==> missing_corners(
                m,
                lo,
                hi,
                n,
            ).contains(corner(lo, hi, i)),
    decreases n,
{
    if n > 0 {
        let p = (n - 1) as nat;
        lemma_missing_corners_cover(m, lo, hi, p);
        let e = missing_corners(m, lo, hi, p);
        let f = missing_corners(m, lo, hi, n);
        assert forall|i: int|
            0 <= i < n && !#[trigger] corner_present(m, lo, hi, i) implies f.contains(
            corner(lo, hi, i),
        ) by {
            if i == n - 1 {
                assert(f[f.len() - 1] == corner(lo, hi, i));
            } else {
                let j = choose|j: int| 0 <= j < e.len() && e[j] == corner(lo, hi, i);
                if !corner_present(m, lo, hi, n - 1) {
                    assert(f[j] == e[j]);
                }
            }
        }
    }
}

/// Every corner listed among the first `n` missing ones is a corner with an
/// index below `n` and without an entry in `m`.
proof fn lemma_missing_corners_sound(
    m: Map<MemoKey, DPValue>,
    lo: DPKeyRepresentative,
    hi: DPKeyRepresentative,
    n: nat,
)
    ensures
        forall|j: int|
            0 <= j < missing_corners(m, lo, hi, n).len() ==> exists|i: int|
                0 <= i < n && !corner_present(m, lo, hi, i) && #[trigger] missing_corners(
                    m,
                    lo,
                    hi,
                    n,
                )[j] == corner(lo, hi, i),
    decreases n,
{
    if n > 0 {
        let p = (n - 1) as nat;
        lemma_missing_corners_sound(m, lo, hi, p);
        let e = missing_corners(m, lo, hi, p);
        let f = missing_corners(m, lo, hi, n);
        assert forall|j: int| 0 <= j < f.len() implies exists|i: int|
            0 <= i < n && !corner_present(m, lo, hi, i) && #[trigger] f[j] == corner(lo, hi, i) by {
            if j < e.len() {
                assert(f[j] == e[j]);
                let i = choose|i: int|
                    0 <= i < p && !corner_present(m, lo, hi, i) && #[trigger] e[j] == corner(
                        lo,
                        hi,
                        i,
                    );
                assert(f[j] == corner(lo, hi, i));
            } else {
                assert(f[j] == corner(lo, hi, n - 1));
            }
        }
    }
}

/// Storing a value for each missing corner of a box completes the box: once
/// the values computed for the corners that `corner_values` reported missing
/// are stored, `corner_values` finds all eight.
pub proof fn lemma_filled_corners_present(
    m: Map<MemoKey, DPValue>,
    lo: DPKeyRepresentative,
    hi: DPKeyRepresentative,
    vals: Seq<DPValue>,
)
    requires
        vals.len() == missing_corners(m, lo, hi, 8).len(),
    ensures
        all_corners_present(filled(m, missing_corners(m, lo, hi, 8), vals), lo, hi),
{
    let miss = missing_corners(m, lo, hi, 8);
    lemma_missing_corners_cover(m, lo, hi, 8);
    lemma_filled_dom(m, miss, vals);
    assert forall|i: int| 0 <= i < 8 implies #[trigger] corner_present(
        filled(m, miss, vals),
        lo,
        hi,
        i,
    ) by {
        let k = corner(lo, hi, i).key();
        if !corner_present(m, lo, hi, i) {
            let j = choose|j: int| 0 <= j < miss.len() && miss[j] == corner(lo, hi, i);
            assert(miss[j].key() == k);
        }
        assert(filled(m, miss, vals).dom().contains(k));
    }
}

/// Corners with different indices have different keys when the two bounds
/// of the box differ in every coordinate.
proof fn lemma_corners_distinct(lo: DPKeyRepresentative, hi: DPKeyRepresentative, i: int, k: int)
    requires
        lo.0.y_pos != hi.0.y_pos,
        lo.0.y_vel != hi.0.y_vel,
        lo.0.z_vel != hi.0.z_vel,
        0 <= i < 8,
        0 <= k < 8,
        i != k,
    ensures
        corner(lo, hi, i).key() != corner(lo, hi, k).key(),
{
    assert(i == 4 * ((i / 4) % 2) + 2 * ((i / 2) % 2) + i % 2);
    assert(k == 4 * ((k / 4) % 2) + 2 * ((k / 2) % 2) + k % 2);
}

/// When the two bounds of a box differ in every coordinate, each missing
/// corner is stored under a key that is new: none has an entry yet, and no
/// two missing corners share a key.
pub proof fn lemma_missing_corners_fresh(
    m: Map<MemoKey, DPValue>,
    lo: DPKeyRepresentative,
    hi: DPKeyRepresentative,
)
    requires
        lo.0.y_pos != hi.0.y_pos,
        lo.0.y_vel != hi.0.y_vel,
        lo.0.z_vel != hi.0.z_vel,
    ensures
        all_fresh(m, missing_corners(m, lo, hi, 8)),
{
    lemma_missing_corners_fresh_prefix(m, lo, hi, 8);
}

proof fn lemma_missing_corners_fresh_prefix(
    m: Map<MemoKey, DPValue>,
    lo: DPKeyRepresentative,
    hi: DPKeyRepresentative,
    n: nat,
)
    requires
        lo.0.y_pos != hi.0.y_pos,
        lo.0.y_vel != hi.0.y_vel,
        lo.0.z_vel != hi.0.z_vel,
        n <= 8,
    ensures
        all_fresh(m, missing_corners(m, lo, hi, n)),
    decreases n,
{
    if n > 0 {
        let p = (n - 1) as nat;
        lemma_missing_corners_fresh_prefix(m, lo, hi, p);
        let e = missing_corners(m, lo, hi, p);
        let f = missing_corners(m, lo, hi, n);
        if !corner_present(m, lo, hi, n - 1) {
            let c = corner(lo, hi, n - 1);
            assert(f == e.push(c));
            lemma_missing_corners_sound(m, lo, hi, p);
            assert forall|j: int| 0 <= j < e.len() implies #[trigger] e[j].key() != c.key() by {
                let i = choose|i: int|
                    0 <= i < p && !corner_present(m, lo, hi, i) && #[trigger] e[j] == corner(
                        lo,
                        hi,
                        i,
                    );
                lemma_corners_distinct(lo, hi, i, n - 1);
            }
            assert forall|j: int| 0 <= j < f.len() implies !m.dom().contains(
                #[trigger] f[j].key(),
            ) by {
                if j < e.len() {
                    assert(f[j] == e[j]);
                }
            }
            assert forall|j: int, k: int| 0 <= j < k < f.len() implies #[trigger] f[j].key()
                != #[trigger] f[k].key() by {
                assert(f[j] == e[j]);
                if k < e.len() {
                    assert(f[k] == e[k]);
                } else {
                    assert(f[k] == c);
                }
            }
        }
    }
}

/// The memo tables of the dynamic program, one per number of ticks still to fly.
pub struct DP {
    /// indexed by tick
    pub caches: Vec<GoodnessAtTick>,
}

impl DP {
    /// A dynamic program with no table yet.
    pub fn empty() -> (r: Self)
        ensures
            r.caches@.len() == 0,
    {
        DP { caches: Vec::new() }
    }

    /// Adds empty tables until there is one for `tick`; the tables already
    /// there keep what they hold.
    pub fn ensure_tick(&mut self, tick: usize)
        ensures
            final(self).caches@.len() == if old(self).caches@.len() > tick {
                old(self).caches@.len() as int
            } else {
                tick + 1
            },
            forall|i: int|
                0 <= i < old(self).caches@.len() ==> #[trigger] final(self).caches@[i]
                    == old(self).caches@[i],
            forall|i: int|
                old(self).caches@.len() <= i < final(self).caches@.len() ==> (
                #[trigger] final(self).caches@[i])@ == Map::<MemoKey, DPValue>::empty(),
    {
        let ghost old_caches = self.caches@;
        while self.caches.len() <= tick
            invariant
                old_caches.len() <= self.caches@.len(),
                old_caches.len() <= tick ==> self.caches@.len() <= tick + 1,
                old_caches.len() > tick ==> self.caches@ == old_caches,
                forall|i: int| 0 <= i < old_caches.len() ==> #[trigger] self.caches@[i] == old_caches[i],
                forall|i: int|
                    old_caches.len() <= i < self.caches@.len() ==> (#[trigger] self.caches@[i])@
                        == Map::<MemoKey, DPValue>::empty(),
            decreases tick + 1 - self.caches@.len(),
        {
            self.caches.push(GoodnessAtTick::empty());
        }
    }
}

} // verus!
