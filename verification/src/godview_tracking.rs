//! Track association, fusion bookkeeping and identity reconciliation.
//!
//! Verified measurements become canonical tracks: an incoming measurement is
//! gated against nearby tracks by its innovation distance, the best gated
//! track absorbs it and unmatched measurements spawn new tracks. Duplicate
//! identities for one physical object are collapsed by the Highlander rule:
//! the lexicographically smallest identifier survives, deterministically on
//! every node, and losers are remembered in a bounded tombstone map.

use vstd::prelude::*;

verus! {

use crate::fixed::{FX_ONE, fx_mul, fx_add, sat64, fx_mul_exec, fx_add_exec, sat64_exec, abs_i,
    ceil_div, ceil_div_exec};
use crate::matrix::{spec_mat_mul, spec_mat_add, spec_mat_sub, spec_diag, is_symmetric, mat_mul,
    mat_add, mat_sub, mat_diag, lemma_diag_rows_len, lemma_mm_rows_len};
use crate::godview_time::{AugmentedStateFilter, FilterError, spec_propagate, spec_tl3, spec_det3,
    spec_inv3, spec_current, views, propagate, tl3, det3, inv3, take_prefix, cols3};
use crate::godview_space::{SpatialEngine, Entity, has_loc, is_tracked, COORD_MAX_E6};

/// Why a measurement was dropped.
#[derive(Debug, Clone, Copy, PartialEq, Eq, Structural)]
pub enum TrackingError {
    /// The measurement predates the matched track's retained history.
    OosmTooOld,
    /// The innovation covariance was singular; the track is unchanged.
    FilterNumeric,
}

/// The recognised options, fixed-point where fractional (defaults in
/// parentheses): window depth (20), surface cell height and width (65
/// units), voxel height (2 units), freshness window (5 s), association gate
/// on the innovation distance (11.34), association radius cap (20 units),
/// reconciliation period (500 ms), idle timeout (5 s), tombstone capacity
/// (10 000), process noise scale (0.01), default measurement noise (0.1),
/// and the prior variances a new track starts from.
pub struct TrackingConfig {
    /// How many measurements the filter window retains.
    pub history_depth: usize,
    /// Surface cell height, position units.
    pub cell_h: i64,
    /// Surface cell width, position units.
    pub cell_w: i64,
    /// Voxel height, fixed-point position units.
    pub voxel_height: i64,
    /// Packet freshness window, nanoseconds.
    pub freshness_window_ns: i64,
    /// Gate on the innovation distance, fixed-point.
    pub assignment_gate_chi2: i64,
    /// Cap on the association search radius, fixed-point units.
    pub max_association_radius: i64,
    /// How often reconciliation runs, milliseconds.
    pub reconciliation_period_ms: i64,
    /// Idle time after which a track retires, milliseconds.
    pub idle_timeout_ms: i64,
    /// Bound on the tombstone map.
    pub tombstone_capacity: usize,
    /// Process noise per second of prediction, fixed-point.
    pub process_noise_q_scale: i64,
    /// Measurement noise used when a source supplies none, fixed-point.
    pub measurement_noise_r_default: i64,
    /// Prior position variance of a spawned track, fixed-point.
    pub p0_pos: i64,
    /// Prior velocity variance of a spawned track, fixed-point.
    pub p0_vel: i64,
    /// Prior acceleration variance of a spawned track, fixed-point.
    pub p0_acc: i64,
}

impl TrackingConfig {
    /// Ranges every option must stay in.
    pub open spec fn wf(&self) -> bool {
        &&& self.history_depth >= 1
        &&& 0 < self.cell_h <= COORD_MAX_E6
        &&& 0 < self.cell_w <= COORD_MAX_E6
        &&& self.voxel_height > 0
        &&& self.freshness_window_ns > 0
        &&& self.assignment_gate_chi2 >= 0
        &&& self.max_association_radius >= 0
        &&& self.reconciliation_period_ms > 0
        &&& self.idle_timeout_ms > 0
        &&& self.tombstone_capacity >= 1
        &&& self.process_noise_q_scale >= 0
        &&& self.measurement_noise_r_default >= 0
        &&& self.p0_pos > 0
        &&& self.p0_vel > 0
        &&& self.p0_acc > 0
    }

    /// The defaults named above.
    pub fn new_default() -> (r: Self)
        ensures
            r.wf(),
            r.history_depth == 20,
            r.voxel_height == 2_000_000,
            r.freshness_window_ns == 5_000_000_000,
            r.assignment_gate_chi2 == 11_340_000,
            r.max_association_radius == 20_000_000,
            r.reconciliation_period_ms == 500,
            r.idle_timeout_ms == 5_000,
            r.tombstone_capacity == 10_000,
            r.process_noise_q_scale == 10_000,
            r.measurement_noise_r_default == 100_000,
    {
        TrackingConfig {
            history_depth: 20,
            cell_h: 65_000_000,
            cell_w: 65_000_000,
            voxel_height: 2_000_000,
            freshness_window_ns: 5_000_000_000,
            assignment_gate_chi2: 11_340_000,
            max_association_radius: 20_000_000,
            reconciliation_period_ms: 500,
            idle_timeout_ms: 5_000,
            tombstone_capacity: 10_000,
            process_noise_q_scale: 10_000,
            measurement_noise_r_default: 100_000,
            p0_pos: 1_000_000,
            p0_vel: 1_000_000_000,
            p0_acc: 100_000_000,
        }
    }
}

/// An entity observation paired with its measurement noise and the agent
/// that produced it.
pub struct Measurement {
    /// The observation.
    pub entity: Entity,
    /// Measurement noise covariance, 3 x 3 fixed-point entries.
    pub noise: Vec<i64>,
    /// Identifier of the producing agent.
    pub agent: Vec<u8>,
}

impl Measurement {
    /// A well-formed observation with a 3 x 3 noise matrix.
    pub open spec fn wf(&self) -> bool {
        &&& self.entity.wf()
        &&& self.noise@.len() == 9
    }
}

/// The canonical fused estimate for one physical entity.
pub struct UniqueTrack {
    /// Canonical identifier, the Highlander-selected UUID value.
    pub uuid: u128,
    /// The temporal filter holding posterior state and history window.
    pub filter: AugmentedStateFilter,
    /// Class tag of the tracked entity.
    pub class: Vec<u8>,
    /// Wall time of the last absorbed measurement, milliseconds.
    pub last_update_ms: i64,
    /// Monotone change counter.
    pub version: u64,
    /// Identifiers of every agent whose measurements contributed.
    pub agents: Vec<Vec<u8>>,
}

impl UniqueTrack {
    /// A track with a well-formed filter.
    pub open spec fn wf(&self) -> bool {
        self.filter.wf()
    }
}

/// The squared innovation distance of a measurement against a track's belief
/// propagated to the measurement's time: `y^T S^{-1} y` with
/// `y = z - H x`, `S = H P H^T + R`; `None` when `S` is singular.
pub open spec fn spec_gate_d2(
    x: Seq<i64>,
    p: Seq<i64>,
    now: i64,
    z: Seq<i64>,
    noise: Seq<i64>,
    t: i64,
    q: i64,
) -> Option<i64> {
    let dt = sat64((t - now) * 1000);
    let pr = if dt > 0 {
        spec_propagate(x, p, dt, q)
    } else {
        (x, p)
    };
    let y = spec_mat_sub(z, pr.0.subrange(0, 3));
    let s = spec_mat_add(spec_tl3(pr.1), noise);
    if spec_det3(s) == 0 {
        None
    } else {
        let m1 = spec_mat_mul(y, spec_inv3(s), 1, 3, 3);
        Some(spec_mat_mul(m1, y, 1, 3, 1)[0])
    }
}

/// Computes the squared innovation distance against a filter's cached
/// belief.
pub fn gate_d2(f: &AugmentedStateFilter, z: &Vec<i64>, noise: &Vec<i64>, t: i64) -> (r: Option<
    i64,
>)
    requires
        f.wf(),
        z@.len() == 3,
        noise@.len() == 9,
    ensures
        r == spec_gate_d2(f.x@, f.p@, f.now_ms, z@, noise@, t, f.q_scale),
{
    let dt: i64 = sat64_exec(((t as i128) - (f.now_ms as i128)) * 1000);
    let (px, pp): (Vec<i64>, Vec<i64>) = if dt > 0 {
        propagate(&f.x, &f.p, dt, f.q_scale)
    } else {
        (take_prefix(&f.x, 9), take_prefix(&f.p, 81))
    };
    proof {
        assert(f.x@.subrange(0, 9) =~= f.x@);
        assert(f.p@.subrange(0, 81) =~= f.p@);
    }
    let x3: Vec<i64> = take_prefix(&px, 3);
    let y: Vec<i64> = mat_sub(z, &x3);
    let tb: Vec<i64> = tl3(&pp);
    let s: Vec<i64> = mat_add(&tb, noise);
    match inv3(&s) {
        None => None,
        Some(si) => {
            let m1: Vec<i64> = mat_mul(&y, &si, 1, 3, 3);
            let d: Vec<i64> = mat_mul(&m1, &y, 1, 3, 1);
            proof {
                lemma_mm_rows_len(m1@, y@, 3, 1, 1);
            }
            Some(d[0])
        },
    }
}

/// The smallest identifier in a non-empty list: the Highlander survivor of
/// that group.
pub open spec fn spec_min_uuid(s: Seq<u128>) -> u128
    decreases s.len(),
{
    if s.len() <= 1 {
        s[0]
    } else if s[0] <= spec_min_uuid(s.drop_first()) {
        s[0]
    } else {
        spec_min_uuid(s.drop_first())
    }
}

proof fn lemma_min_uuid_props(s: Seq<u128>)
    requires
        s.len() > 0,
    ensures
        s.contains(spec_min_uuid(s)),
        forall|i: int| 0 <= i < s.len() ==> spec_min_uuid(s) <= #[trigger] s[i],
    decreases s.len(),
{
    if s.len() > 1 {
        lemma_min_uuid_props(s.drop_first());
        assert(forall|i: int|
            0 <= i < s.drop_first().len() ==> #[trigger] s.drop_first()[i] == s[i + 1]);
        if s[0] <= spec_min_uuid(s.drop_first()) {
            assert(s.contains(s[0]));
        } else {
            let m = spec_min_uuid(s.drop_first());
            let j = choose|j: int| 0 <= j < s.drop_first().len() && s.drop_first()[j] == m;
            assert(s[j + 1] == m);
            assert(s.contains(m));
        }
        assert forall|i: int| 0 <= i < s.len() implies spec_min_uuid(s) <= #[trigger] s[i] by {
            if i > 0 {
                assert(s.drop_first()[i - 1] == s[i]);
                assert(spec_min_uuid(s.drop_first()) <= s.drop_first()[i - 1]);
            }
        }
    } else {
        assert(s.contains(s[0]));
    }
}

/// Picks the surviving identifier of a duplicate group: the smallest.
pub fn highlander_survivor(uuids: &Vec<u128>) -> (r: u128)
    requires
        uuids@.len() > 0,
    ensures
        r == spec_min_uuid(uuids@),
        uuids@.contains(r),
        forall|i: int| 0 <= i < uuids@.len() ==> r <= #[trigger] uuids@[i],
{
    proof {
        lemma_min_uuid_props(uuids@);
    }
    let mut best: u128 = uuids[0];
    let mut i: usize = 1;
    while i < uuids.len()
        invariant
            1 <= i <= uuids@.len(),
            exists|j: int| 0 <= j < i && uuids@[j] == best,
            forall|j: int| 0 <= j < i ==> best <= #[trigger] uuids@[j],
        decreases uuids.len() - i,
    {
        if uuids[i] < best {
            best = uuids[i];
        }
        i = i + 1;
    }
    proof {
        let m = spec_min_uuid(uuids@);
        let j = choose|j: int| 0 <= j < uuids@.len() && uuids@[j] == m;
        let w = choose|w: int| 0 <= w < uuids@.len() && uuids@[w] == best;
        assert(best <= uuids@[j]);
        assert(m <= uuids@[w]);
    }
    best
}

/// Tombstone determinism: the Highlander survivor of a duplicate group is a
/// function of the group as a multiset — every node, whatever order it met
/// the tracks in, names the same survivor.
pub proof fn lemma_highlander_deterministic(a: Seq<u128>, b: Seq<u128>)
    requires
        a.len() > 0,
        a.to_multiset() == b.to_multiset(),
    ensures
        b.len() > 0,
        spec_min_uuid(a) == spec_min_uuid(b),
{
    broadcast use vstd::multiset::group_multiset_axioms;
    broadcast use vstd::seq_lib::group_to_multiset_ensures;

    assert(a.to_multiset().len() == a.len());
    assert(b.to_multiset().len() == b.len());
    lemma_min_uuid_props(a);
    lemma_min_uuid_props(b);
    let ma = spec_min_uuid(a);
    let mb = spec_min_uuid(b);
    assert(a.to_multiset().contains(ma));
    assert(b.to_multiset().contains(ma));
    assert(b.contains(ma));
    let i = choose|i: int| 0 <= i < b.len() && b[i] == ma;
    assert(mb <= ma);
    assert(b.to_multiset().contains(mb));
    assert(a.to_multiset().contains(mb));
    assert(a.contains(mb));
    let j = choose|j: int| 0 <= j < a.len() && a[j] == mb;
    assert(ma <= mb);
}


/// Whether a list holds an identifier.
pub open spec fn uuid_listed(s: Seq<u128>, u: u128) -> bool {
    s.contains(u)
}

/// Linear membership scan.
pub fn contains_u128(s: &Vec<u128>, u: u128) -> (r: bool)
    ensures
        r == s@.contains(u),
{
    let mut i: usize = 0;
    while i < s.len()
        invariant
            i <= s.len(),
            forall|j: int| 0 <= j < i ==> s@[j] != u,
        decreases s.len() - i,
    {
        if s[i] == u {
            return true;
        }
        i = i + 1;
    }
    false
}

/// The index of the track carrying an identifier, if any.
pub fn find_track(tracks: &Vec<UniqueTrack>, u: u128) -> (r: Option<usize>)
    ensures
        r matches Some(i) ==> i < tracks@.len() && tracks@[i as int].uuid == u,
        r is None ==> forall|j: int| 0 <= j < tracks@.len() ==> (#[trigger] tracks@[j]).uuid != u,
{
    let mut i: usize = 0;
    while i < tracks.len()
        invariant
            i <= tracks.len(),
            forall|j: int| 0 <= j < i ==> (#[trigger] tracks@[j]).uuid != u,
        decreases tracks.len() - i,
    {
        if tracks[i].uuid == u {
            return Some(i);
        }
        i = i + 1;
    }
    None
}

/// Clamps a coordinate into the range the spatial index accepts.
pub open spec fn spec_clamp_coord(v: i64) -> i64 {
    if v > COORD_MAX_E6 {
        COORD_MAX_E6
    } else if v < -COORD_MAX_E6 {
        (-COORD_MAX_E6) as i64
    } else {
        v
    }
}

/// Executable coordinate clamp.
pub fn clamp_coord(v: i64) -> (r: i64)
    ensures
        r == spec_clamp_coord(v),
        abs_i(r as int) <= COORD_MAX_E6,
{
    if v > COORD_MAX_E6 {
        COORD_MAX_E6
    } else if v < -COORD_MAX_E6 {
        -COORD_MAX_E6
    } else {
        v
    }
}

/// A version bump that tops out at the counter's range instead of wrapping.
pub open spec fn spec_bump(v: u64) -> u64 {
    if v < u64::MAX {
        (v + 1) as u64
    } else {
        v
    }
}

/// Executable version bump.
pub fn bump_version(v: u64) -> (r: u64)
    ensures
        r == spec_bump(v),
        r >= v,
        v < u64::MAX ==> r > v,
{
    if v < u64::MAX {
        v + 1
    } else {
        v
    }
}

/// Records an agent as a contributor if it is not yet listed.
pub fn add_agent(agents: &mut Vec<Vec<u8>>, agent: &Vec<u8>)
    ensures
        crate::godview_trust::bytes_listed(final(agents)@, agent@),
        forall|b: Seq<u8>|
            crate::godview_trust::bytes_listed(final(agents)@, b) <==> (
            crate::godview_trust::bytes_listed(old(agents)@, b) || b == agent@),
{
    let ghost a0 = agents@;
    if !crate::godview_trust::bytes_listed_exec(agents, agent) {
        let mut copy: Vec<u8> = Vec::new();
        copy.extend_from_slice(agent.as_slice());
        proof {
            assert(copy@ =~= agent@);
        }
        agents.push(copy);
        proof {
            assert(agents@[a0.len() as int]@ == agent@);
            assert forall|b: Seq<u8>|
                crate::godview_trust::bytes_listed(agents@, b) <==> (
                crate::godview_trust::bytes_listed(a0, b) || b == agent@) by {
                if crate::godview_trust::bytes_listed(agents@, b) {
                    let w = choose|w: int| 0 <= w < agents@.len() && (#[trigger] agents@[w])@ == b;
                    if w < a0.len() {
                        assert(a0[w]@ == b);
                    }
                }
                if crate::godview_trust::bytes_listed(a0, b) {
                    let w = choose|w: int| 0 <= w < a0.len() && (#[trigger] a0[w])@ == b;
                    assert(agents@[w]@ == b);
                }
            }
        }
    }
}

/// Whether a track qualifies for a measurement: it is among the spatial
/// candidates, its innovation covariance is regular, and its innovation
/// distance is inside the gating threshold.
pub open spec fn spec_qualified(
    tr: UniqueTrack,
    cands: Seq<u128>,
    z: Seq<i64>,
    noise: Seq<i64>,
    t: i64,
    gate: i64,
) -> bool {
    &&& cands.contains(tr.uuid)
    &&& spec_gate_d2(tr.filter.x@, tr.filter.p@, tr.filter.now_ms, z, noise, t, tr.filter.q_scale)
        matches Some(d)
    &&& spec_gate_d2(
        tr.filter.x@,
        tr.filter.p@,
        tr.filter.now_ms,
        z,
        noise,
        t,
        tr.filter.q_scale,
    )->Some_0 <= gate
}

/// The innovation distance of a qualified track.
pub open spec fn spec_track_d2(tr: UniqueTrack, z: Seq<i64>, noise: Seq<i64>, t: i64) -> i64 {
    spec_gate_d2(
        tr.filter.x@,
        tr.filter.p@,
        tr.filter.now_ms,
        z,
        noise,
        t,
        tr.filter.q_scale,
    )->Some_0
}

/// Picks the best association for a measurement: the qualified track of
/// least innovation distance, ties broken toward the smaller identifier, so
/// the choice is deterministic whatever order the tracks are stored in.
/// Measurements are processed one at a time as they arrive, so this
/// one-row minimum-cost assignment is the whole assignment problem; no
/// epoch batch is accumulated.
pub fn associate(
    tracks: &Vec<UniqueTrack>,
    cands: &Vec<u128>,
    z: &Vec<i64>,
    noise: &Vec<i64>,
    t: i64,
    gate: i64,
) -> (r: Option<usize>)
    requires
        forall|j: int| 0 <= j < tracks@.len() ==> (#[trigger] tracks@[j]).wf(),
        z@.len() == 3,
        noise@.len() == 9,
    ensures
        r matches Some(i) ==> {
            &&& i < tracks@.len()
            &&& spec_qualified(tracks@[i as int], cands@, z@, noise@, t, gate)
            &&& forall|j: int|
                0 <= j < tracks@.len() && spec_qualified(
                    #[trigger] tracks@[j],
                    cands@,
                    z@,
                    noise@,
                    t,
                    gate,
                ) ==> {
                    ||| spec_track_d2(tracks@[i as int], z@, noise@, t) < spec_track_d2(
                        tracks@[j],
                        z@,
                        noise@,
                        t,
                    )
                    ||| (spec_track_d2(tracks@[i as int], z@, noise@, t) == spec_track_d2(
                        tracks@[j],
                        z@,
                        noise@,
                        t,
                    ) && tracks@[i as int].uuid <= tracks@[j].uuid)
                }
        },
        r is None ==> forall|j: int|
            0 <= j < tracks@.len() ==> !spec_qualified(
                #[trigger] tracks@[j],
                cands@,
                z@,
                noise@,
                t,
                gate,
            ),
{
    let mut best: Option<usize> = None;
    let mut best_d: i64 = 0;
    let mut j: usize = 0;
    while j < tracks.len()
        invariant
            j <= tracks@.len(),
            forall|w: int| 0 <= w < tracks@.len() ==> (#[trigger] tracks@[w]).wf(),
            z@.len() == 3,
            noise@.len() == 9,
            best matches Some(i) ==> {
                &&& i < j
                &&& spec_qualified(tracks@[i as int], cands@, z@, noise@, t, gate)
                &&& best_d == spec_track_d2(tracks@[i as int], z@, noise@, t)
                &&& forall|w: int|
                    0 <= w < j && spec_qualified(
                        #[trigger] tracks@[w],
                        cands@,
                        z@,
                        noise@,
                        t,
                        gate,
                    ) ==> {
                        ||| best_d < spec_track_d2(tracks@[w], z@, noise@, t)
                        ||| (best_d == spec_track_d2(tracks@[w], z@, noise@, t) && tracks@[
                            i as int
                        ].uuid <= tracks@[w].uuid)
                    }
            },
            best is None ==> forall|w: int|
                0 <= w < j ==> !spec_qualified(#[trigger] tracks@[w], cands@, z@, noise@, t, gate),
        decreases tracks.len() - j,
    {
        let in_ring: bool = contains_u128(cands, tracks[j].uuid);
        if in_ring {
            let d2o: Option<i64> = gate_d2(&tracks[j].filter, z, noise, t);
            match d2o {
                Some(d) => {
                    if d <= gate {
                        proof {
                            assert(spec_qualified(tracks@[j as int], cands@, z@, noise@, t, gate));
                        }
                        match best {
                            None => {
                                best = Some(j);
                                best_d = d;
                            },
                            Some(bi) => {
                                if d < best_d || (d == best_d && tracks[j].uuid
                                    < tracks[bi].uuid) {
                                    best = Some(j);
                                    best_d = d;
                                }
                            },
                        }
                    }
                },
                None => {},
            }
        }
        j = j + 1;
    }
    best
}


/// The row ring the associator searches, from the configuration.
pub open spec fn spec_kr(c: TrackingConfig) -> i64 {
    ceil_div(c.max_association_radius as int, c.cell_h as int) as i64
}

/// The column ring: one wider than the row ring, covering the offset rows.
pub open spec fn spec_kc(c: TrackingConfig) -> i64 {
    if spec_kr(c) < i64::MAX {
        (spec_kr(c) + 1) as i64
    } else {
        spec_kr(c)
    }
}

/// The voxel ring the associator searches.
pub open spec fn spec_vk(c: TrackingConfig) -> i64 {
    ceil_div(c.max_association_radius as int, c.voxel_height as int) as i64
}

/// Whether an identifier lies in the ring searched for a measurement.
pub open spec fn spec_m_candidate(pre: TrackManager, m: Measurement, u: u128) -> bool {
    let keys = pre.index.spec_cell_keys(
        m.entity.position@[0],
        m.entity.position@[1],
        m.entity.position@[2],
    );
    pre.index.spec_in_range(u, keys.0, spec_kr(pre.config), spec_kc(pre.config), keys.1, spec_vk(pre.config))
}

/// Whether track `k` qualifies for a measurement: in the searched ring,
/// regular innovation covariance, innovation distance inside the gating threshold.
pub open spec fn spec_m_qualified(pre: TrackManager, m: Measurement, k: int) -> bool {
    &&& 0 <= k < pre.tracks@.len()
    &&& spec_m_candidate(pre, m, pre.tracks@[k].uuid)
    &&& spec_gate_d2(
        pre.tracks@[k].filter.x@,
        pre.tracks@[k].filter.p@,
        pre.tracks@[k].filter.now_ms,
        m.entity.position@,
        m.noise@,
        m.entity.timestamp,
        pre.tracks@[k].filter.q_scale,
    ) matches Some(d)
    &&& spec_gate_d2(
        pre.tracks@[k].filter.x@,
        pre.tracks@[k].filter.p@,
        pre.tracks@[k].filter.now_ms,
        m.entity.position@,
        m.noise@,
        m.entity.timestamp,
        pre.tracks@[k].filter.q_scale,
    )->Some_0 <= pre.config.assignment_gate_chi2
}

/// The innovation distance of a qualified track against a measurement.
pub open spec fn spec_m_d2(pre: TrackManager, m: Measurement, k: int) -> i64 {
    spec_gate_d2(
        pre.tracks@[k].filter.x@,
        pre.tracks@[k].filter.p@,
        pre.tracks@[k].filter.now_ms,
        m.entity.position@,
        m.noise@,
        m.entity.timestamp,
        pre.tracks@[k].filter.q_scale,
    )->Some_0
}

/// Whether any track qualifies for the measurement.
pub open spec fn spec_has_match(pre: TrackManager, m: Measurement) -> bool {
    exists|k: int| spec_m_qualified(pre, m, k)
}

/// Whether some live track carries the identifier.
pub open spec fn spec_live(pre: TrackManager, u: u128) -> bool {
    exists|k: int| 0 <= k < pre.tracks@.len() && (#[trigger] pre.tracks@[k]).uuid == u
}

/// The track a measurement is absorbed into, as a relation on the live set:
/// the qualified track of least innovation distance (ties to the smaller
/// identifier); with no qualified track, the live survivor the observation's
/// identity resolves to through the tombstones; with neither, the live track
/// already carrying that identity. No `k` satisfies this when the
/// measurement spawns.
pub open spec fn spec_target(pre: TrackManager, m: Measurement, k: int) -> bool {
    if spec_has_match(pre, m) {
        &&& spec_m_qualified(pre, m, k)
        &&& forall|j: int|
            #![trigger spec_m_qualified(pre, m, j)]
            spec_m_qualified(pre, m, j) ==> (spec_m_d2(pre, m, k) < spec_m_d2(pre, m, j)
                || (spec_m_d2(pre, m, k) == spec_m_d2(pre, m, j) && pre.tracks@[k].uuid
                    <= pre.tracks@[j].uuid))
    } else {
        let sid = spec_resolve(pre.tombstones@, m.entity.id);
        if sid != m.entity.id && spec_live(pre, sid) {
            0 <= k < pre.tracks@.len() && pre.tracks@[k].uuid == sid
        } else if spec_live(pre, m.entity.id) {
            0 <= k < pre.tracks@.len() && pre.tracks@[k].uuid == m.entity.id
        } else {
            false
        }
    }
}

/// Whether a measurement spawns a fresh track: nothing qualifies and its
/// identity is unknown, directly or through the tombstones.
pub open spec fn spec_spawns(pre: TrackManager, m: Measurement) -> bool {
    forall|k: int| !#[trigger] spec_target(pre, m, k)
}

/// The prior covariance a spawned track starts from.
pub open spec fn spec_p0(c: TrackingConfig) -> Seq<i64> {
    crate::matrix::spec_symmetrize(
        spec_diag(9, 0).update(0, c.p0_pos).update(10, c.p0_pos).update(20, c.p0_pos).update(
            30,
            c.p0_vel,
        ).update(40, c.p0_vel).update(50, c.p0_vel).update(60, c.p0_acc).update(70, c.p0_acc)
            .update(80, c.p0_acc),
        9,
    )
}

/// `n` saturating bumps of a counter.
pub open spec fn spec_bump_n(v: u64, n: int) -> u64
    decreases n,
{
    if n <= 0 {
        v
    } else {
        spec_bump(spec_bump_n(v, n - 1))
    }
}

/// At most one track is the absorption target of a measurement.
proof fn lemma_target_unique(pre: &TrackManager, m: Measurement, k1: int, k2: int)
    requires
        pre.wf(),
        spec_target(*pre, m, k1),
        spec_target(*pre, m, k2),
    ensures
        k1 == k2,
{
    if k1 != k2 {
        if spec_has_match(*pre, m) {
            assert(spec_m_qualified(*pre, m, k1));
            assert(spec_m_qualified(*pre, m, k2));
            assert(pre.tracks@[k1].uuid <= pre.tracks@[k2].uuid || spec_m_d2(*pre, m, k1)
                < spec_m_d2(*pre, m, k2));
            assert(pre.tracks@[k2].uuid <= pre.tracks@[k1].uuid || spec_m_d2(*pre, m, k2)
                < spec_m_d2(*pre, m, k1));
            assert(pre.tracks@[k1].uuid == pre.tracks@[k2].uuid);
            if k1 < k2 {
                assert(pre.tracks@[k1].uuid != pre.tracks@[k2].uuid);
            } else {
                assert(pre.tracks@[k2].uuid != pre.tracks@[k1].uuid);
            }
        } else {
            assert(pre.tracks@[k1].uuid == pre.tracks@[k2].uuid);
            if k1 < k2 {
                assert(pre.tracks@[k1].uuid != pre.tracks@[k2].uuid);
            } else {
                assert(pre.tracks@[k2].uuid != pre.tracks@[k1].uuid);
            }
        }
    }
}

/// The observable content of a track: what tests and downstream consumers
/// can see of it.
pub struct TrackObs {
    /// Canonical identifier.
    pub uuid: u128,
    /// Posterior mean.
    pub x: Seq<i64>,
    /// Posterior covariance.
    pub p: Seq<i64>,
    /// Change counter.
    pub version: u64,
    /// Last absorbed measurement's wall time.
    pub last_update_ms: i64,
    /// Class tag.
    pub class: Seq<u8>,
}

/// Reads a track's observable content.
pub open spec fn obs(t: UniqueTrack) -> TrackObs {
    TrackObs {
        uuid: t.uuid,
        x: t.filter.x@,
        p: t.filter.p@,
        version: t.version,
        last_update_ms: t.last_update_ms,
        class: t.class@,
    }
}

/// Per-responsibility counters surfaced to operators.
pub struct Metrics {
    /// Packets the trust layer rejected, as reported by the caller.
    pub verify_failures: u64,
    /// Measurements older than their track's retained history.
    pub oosm_dropped: u64,
    /// Measurements rejected for a singular innovation covariance.
    pub filter_rejects: u64,
    /// Identity merges performed.
    pub merges_performed: u64,
    /// Tracks spawned.
    pub tracks_spawned: u64,
    /// Tracks retired for idleness.
    pub tracks_retired: u64,
}

/// The first surviving identifier a loser maps to, or the identifier itself
/// when it was never merged away.
pub open spec fn spec_resolve(ts: Seq<(u128, u128)>, u: u128) -> u128
    decreases ts.len(),
{
    if ts.len() == 0 {
        u
    } else if ts[0].0 == u {
        ts[0].1
    } else {
        spec_resolve(ts.drop_first(), u)
    }
}

proof fn lemma_resolve_skip(ts: Seq<(u128, u128)>, u: u128, i: int)
    requires
        0 <= i <= ts.len(),
        forall|j: int| 0 <= j < i ==> (#[trigger] ts[j]).0 != u,
    ensures
        spec_resolve(ts, u) == spec_resolve(ts.skip(i), u),
    decreases i,
{
    if i > 0 {
        assert(ts[0].0 != u);
        assert(forall|j: int|
            0 <= j < ts.drop_first().len() ==> #[trigger] ts.drop_first()[j] == ts[j + 1]);
        lemma_resolve_skip(ts.drop_first(), u, i - 1);
        assert(ts.drop_first().skip(i - 1) =~= ts.skip(i));
    } else {
        assert(ts.skip(0) =~= ts);
    }
}

/// Turn a stream of verified measurements into the canonical track set.
pub struct TrackManager {
    /// The configured options.
    pub config: TrackingConfig,
    /// The live tracks, identifiers pairwise distinct.
    pub tracks: Vec<UniqueTrack>,
    /// The spatial index over the live tracks.
    pub index: SpatialEngine,
    /// Merged-away identifiers mapped to their survivors, oldest first,
    /// bounded by the configured capacity.
    pub tombstones: Vec<(u128, u128)>,
    /// Operational counters.
    pub metrics: Metrics,
}

impl TrackManager {
    /// Structural invariant: a valid configuration, an index over the same
    /// geometry, pairwise distinct well-formed tracks each present in the
    /// index, and every tombstone naming a survivor smaller than its loser.
    pub open spec fn wf(&self) -> bool {
        &&& self.config.wf()
        &&& self.index.wf()
        &&& self.index.cell_h == self.config.cell_h
        &&& self.index.cell_w == self.config.cell_w
        &&& self.index.voxel_height == self.config.voxel_height
        &&& (forall|i: int, j: int|
            0 <= i < j < self.tracks@.len() ==> (#[trigger] self.tracks@[i]).uuid != (
            #[trigger] self.tracks@[j]).uuid)
        &&& (forall|i: int| 0 <= i < self.tracks@.len() ==> (#[trigger] self.tracks@[i]).wf())
        &&& (forall|i: int|
            0 <= i < self.tracks@.len() ==> is_tracked(
                self.index.locs@,
                (#[trigger] self.tracks@[i]).uuid,
            ))
        &&& self.tombstones@.len() <= self.config.tombstone_capacity
        &&& (forall|k: int|
            0 <= k < self.tombstones@.len() ==> (#[trigger] self.tombstones@[k]).1
                < self.tombstones@[k].0)
    }

    /// A manager with no tracks yet.
    pub fn new(config: TrackingConfig) -> (r: Self)
        requires
            config.wf(),
        ensures
            r.wf(),
            r.config == config,
            r.tracks@.len() == 0,
            r.tombstones@.len() == 0,
            r.metrics.tracks_spawned == 0,
            r.metrics.tracks_retired == 0,
            r.metrics.merges_performed == 0,
    {
        let index = SpatialEngine::new(config.cell_h, config.cell_w, config.voxel_height);
        TrackManager {
            config,
            tracks: Vec::new(),
            index,
            tombstones: Vec::new(),
            metrics: Metrics {
                verify_failures: 0,
                oosm_dropped: 0,
                filter_rejects: 0,
                merges_performed: 0,
                tracks_spawned: 0,
                tracks_retired: 0,
            },
        }
    }

    /// Counts a packet the trust layer rejected.
    pub fn note_trust_failure(&mut self)
        requires
            old(self).wf(),
        ensures
            final(self).wf(),
            final(self).metrics.verify_failures == spec_bump(old(self).metrics.verify_failures),
            final(self).tracks@ == old(self).tracks@,
            final(self).tombstones@ == old(self).tombstones@,
            final(self).config == old(self).config,
            final(self).index == old(self).index,
    {
        self.metrics.verify_failures = bump_version(self.metrics.verify_failures);
    }

    /// The survivor a merged-away identifier now answers under.
    pub fn resolve_tombstone(&self, u: u128) -> (r: u128)
        ensures
            r == spec_resolve(self.tombstones@, u),
    {
        let mut i: usize = 0;
        while i < self.tombstones.len()
            invariant
                i <= self.tombstones@.len(),
                forall|j: int| 0 <= j < i ==> (#[trigger] self.tombstones@[j]).0 != u,
            decreases self.tombstones.len() - i,
        {
            proof {
                lemma_resolve_skip(self.tombstones@, u, i as int);
            }
            if self.tombstones[i].0 == u {
                proof {
                    assert(self.tombstones@.skip(i as int)[0] == self.tombstones@[i as int]);
                }
                return self.tombstones[i].1;
            }
            i = i + 1;
        }
        proof {
            lemma_resolve_skip(self.tombstones@, u, self.tombstones@.len() as int);
            assert(self.tombstones@.skip(self.tombstones@.len() as int).len() == 0);
        }
        u
    }

    /// Feeds a measurement to the track at index `i`: the filter absorbs it
    /// (in or out of order), the version and timestamps advance, the agent
    /// is recorded and the index follows the new posterior position. On a
    /// drop the track is observably unchanged.
    #[verifier::rlimit(100)]
    fn absorb(&mut self, i: usize, z: Vec<i64>, noise: Vec<i64>, t: i64, agent: &Vec<u8>, now_ms: i64)
        -> (r: Result<u128, TrackingError>)
        requires
            old(self).wf(),
            i < old(self).tracks@.len(),
            z@.len() == 3,
            noise@.len() == 9,
        ensures
            final(self).wf(),
            final(self).config == old(self).config,
            final(self).tombstones@ == old(self).tombstones@,
            final(self).tracks@.len() == old(self).tracks@.len(),
            forall|k: int|
                0 <= k < old(self).tracks@.len() && k != i as int ==> obs(
                    #[trigger] final(self).tracks@[k],
                ) == obs(old(self).tracks@[k]),
            forall|k: int|
                0 <= k < old(self).tracks@.len() ==> (#[trigger] final(self).tracks@[k]).uuid
                    == old(self).tracks@[k].uuid,
            r matches Ok(u) ==> {
                &&& u == old(self).tracks@[i as int].uuid
                &&& final(self).tracks@[i as int].version == spec_bump(
                    old(self).tracks@[i as int].version,
                )
                &&& final(self).tracks@[i as int].last_update_ms == now_ms
            },
            r is Err ==> obs(final(self).tracks@[i as int]) == obs(old(self).tracks@[i as int]),
            (r == Result::<u128, TrackingError>::Err(TrackingError::OosmTooOld)) <==> t < old(
                self,
            ).tracks@[i as int].filter.base_t,
            (r == Result::<u128, TrackingError>::Err(TrackingError::FilterNumeric)) <==> (t
                >= old(self).tracks@[i as int].filter.base_t && crate::godview_time::spec_ill_at(
                old(self).tracks@[i as int].filter.base_x@,
                old(self).tracks@[i as int].filter.base_p@,
                old(self).tracks@[i as int].filter.base_t,
                views(old(self).tracks@[i as int].filter.meas@),
                crate::godview_time::MeasV { t_ms: t, z: z@, r: noise@ },
                old(self).tracks@[i as int].filter.q_scale,
            )),
            r is Ok ==> ({
                let f0 = old(self).tracks@[i as int].filter;
                let f1 = final(self).tracks@[i as int].filter;
                let mv = crate::godview_time::MeasV { t_ms: t, z: z@, r: noise@ };
                let ms0 = views(f0.meas@);
                let ins = ms0.insert(crate::godview_time::insert_pos(ms0, mv), mv);
                &&& f1.lag == f0.lag
                &&& f1.q_scale == f0.q_scale
                &&& f1.now_ms == f0.now_ms
                &&& if ins.len() > f0.lag {
                    let st = crate::godview_time::spec_step(
                        (f0.base_x@, f0.base_p@, f0.base_t),
                        ins[0],
                        f0.q_scale,
                    );
                    views(f1.meas@) == ins.drop_first() && f1.base_x@ == st.0 && f1.base_p@
                        == st.1 && f1.base_t == st.2
                } else {
                    views(f1.meas@) == ins && f1.base_x@ == f0.base_x@ && f1.base_p@
                        == f0.base_p@ && f1.base_t == f0.base_t
                }
            }),
            final(self).metrics.merges_performed == old(self).metrics.merges_performed,
            final(self).metrics.tracks_retired == old(self).metrics.tracks_retired,
            final(self).metrics.tracks_spawned == old(self).metrics.tracks_spawned,
            final(self).metrics.verify_failures == old(self).metrics.verify_failures,
            r is Ok ==> final(self).metrics.oosm_dropped == old(self).metrics.oosm_dropped
                && final(self).metrics.filter_rejects == old(self).metrics.filter_rejects,
            (r == Result::<u128, TrackingError>::Err(TrackingError::OosmTooOld)) ==> ({
                let mm = final(self).metrics;
                mm.oosm_dropped == spec_bump(old(self).metrics.oosm_dropped)
                    && mm.filter_rejects == old(self).metrics.filter_rejects
            }),
            (r == Result::<u128, TrackingError>::Err(TrackingError::FilterNumeric)) ==> ({
                let mm = final(self).metrics;
                mm.filter_rejects == spec_bump(old(self).metrics.filter_rejects)
                    && mm.oosm_dropped == old(self).metrics.oosm_dropped
            }),
    {
        let uuid: u128 = self.tracks[i].uuid;
        let res = self.tracks[i].filter.update_oosm(z, noise, t);
        match res {
            Err(FilterError::TooOld) => {
                self.metrics.oosm_dropped = bump_version(self.metrics.oosm_dropped);
                proof {
                    assert(final(self).tracks@ =~= old(self).tracks@.update(
                        i as int,
                        final(self).tracks@[i as int],
                    ));
                }
                Err(TrackingError::OosmTooOld)
            },
            Err(FilterError::IllConditioned) => {
                self.metrics.filter_rejects = bump_version(self.metrics.filter_rejects);
                proof {
                    assert(final(self).tracks@ =~= old(self).tracks@.update(
                        i as int,
                        final(self).tracks@[i as int],
                    ));
                }
                Err(TrackingError::FilterNumeric)
            },
            Ok(()) => {
                let v = self.tracks[i].version;
                self.tracks[i].version = bump_version(v);
                self.tracks[i].last_update_ms = now_ms;
                add_agent(&mut self.tracks[i].agents, agent);
                let st = self.tracks[i].filter.state();
                let c0: i64 = clamp_coord(st.0[0]);
                let c1: i64 = clamp_coord(st.0[1]);
                let c2: i64 = clamp_coord(st.0[2]);
                let ghost locs_before = self.index.locs@;
                self.index.upsert(uuid, c0, c1, c2);
                proof {
                    assert forall|k: int|
                        0 <= k < self.tracks@.len() implies is_tracked(
                        self.index.locs@,
                        (#[trigger] self.tracks@[k]).uuid,
                    ) by {
                        let tu = self.tracks@[k].uuid;
                        if tu == uuid {
                            let (h, v2) = old(self).index.spec_cell_keys(c0, c1, c2);
                            assert(has_loc(self.index.locs@, tu, h, v2));
                            let w = choose|w: int|
                                0 <= w < self.index.locs@.len() && self.index.locs@[w] == (
                                tu,
                                h,
                                v2,
                            );
                            assert(self.index.locs@[w].0 == tu);
                        } else {
                            assert(is_tracked(locs_before, tu));
                            let w0 = choose|w0: int|
                                0 <= w0 < locs_before.len() && (#[trigger] locs_before[w0]).0
                                    == tu;
                            let h = locs_before[w0].1;
                            let v2 = locs_before[w0].2;
                            assert(locs_before[w0] == (tu, h, v2));
                            assert(has_loc(locs_before, tu, h, v2));
                            assert(has_loc(self.index.locs@, tu, h, v2));
                            let w = choose|w: int|
                                0 <= w < self.index.locs@.len() && self.index.locs@[w] == (
                                tu,
                                h,
                                v2,
                            );
                            assert(self.index.locs@[w].0 == tu);
                        }
                    }
                }
                Ok(uuid)
            },
        }
    }

    /// Starts a track from an unmatched observation: position from the
    /// measurement, zero velocity and acceleration, the configured prior
    /// covariance, version one.
    #[verifier::rlimit(100)]
    fn spawn(&mut self, entity: Entity, agent: &Vec<u8>, now_ms: i64) -> (r: u128)
        requires
            old(self).wf(),
            entity.wf(),
            forall|j: int|
                0 <= j < old(self).tracks@.len() ==> (#[trigger] old(self).tracks@[j]).uuid
                    != entity.id,
        ensures
            final(self).wf(),
            final(self).config == old(self).config,
            final(self).tombstones@ == old(self).tombstones@,
            r == entity.id,
            final(self).tracks@.len() == old(self).tracks@.len() + 1,
            forall|k: int|
                0 <= k < old(self).tracks@.len() ==> obs(#[trigger] final(self).tracks@[k]) == obs(
                    old(self).tracks@[k],
                ),
            ({
                let t = final(self).tracks@[old(self).tracks@.len() as int];
                &&& t.uuid == entity.id
                &&& t.version == 1
                &&& t.last_update_ms == now_ms
                &&& t.filter.x@.subrange(0, 3) == entity.position@
                &&& t.filter.base_x@ == entity.position@ + seq![0i64, 0i64, 0i64, 0i64, 0i64, 0i64]
                &&& t.filter.base_p@ == spec_p0(old(self).config)
                &&& views(t.filter.meas@) == Seq::<crate::godview_time::MeasV>::empty()
                &&& t.class@ == entity.entity_type@
            }),
            is_tracked(final(self).index.locs@, entity.id),
            final(self).metrics.tracks_spawned == spec_bump(old(self).metrics.tracks_spawned),
            final(self).metrics.oosm_dropped == old(self).metrics.oosm_dropped,
            final(self).metrics.filter_rejects == old(self).metrics.filter_rejects,
            final(self).metrics.merges_performed == old(self).metrics.merges_performed,
            final(self).metrics.tracks_retired == old(self).metrics.tracks_retired,
            final(self).metrics.verify_failures == old(self).metrics.verify_failures,
    {
        let uuid: u128 = entity.id;
        let mut x0: Vec<i64> = Vec::new();
        x0.push(entity.position[0]);
        x0.push(entity.position[1]);
        x0.push(entity.position[2]);
        x0.push(0);
        x0.push(0);
        x0.push(0);
        x0.push(0);
        x0.push(0);
        x0.push(0);
        proof {
            assert(x0@.subrange(0, 3) =~= entity.position@);
            assert(x0@ =~= entity.position@ + seq![0i64, 0i64, 0i64, 0i64, 0i64, 0i64]);
        }
        let mut raw: Vec<i64> = mat_diag(9, 0);
        proof {
            lemma_diag_rows_len(9, 0, 9);
        }
        raw[0] = self.config.p0_pos;
        raw[10] = self.config.p0_pos;
        raw[20] = self.config.p0_pos;
        raw[30] = self.config.p0_vel;
        raw[40] = self.config.p0_vel;
        raw[50] = self.config.p0_vel;
        raw[60] = self.config.p0_acc;
        raw[70] = self.config.p0_acc;
        raw[80] = self.config.p0_acc;
        let p0: Vec<i64> = crate::matrix::symmetrize(&raw, 9);
        let f = AugmentedStateFilter::new(
            x0,
            p0,
            self.config.process_noise_q_scale,
            self.config.history_depth,
            entity.timestamp,
        );
        let mut agents: Vec<Vec<u8>> = Vec::new();
        let mut acopy: Vec<u8> = Vec::new();
        acopy.extend_from_slice(agent.as_slice());
        agents.push(acopy);
        let tr = UniqueTrack {
            uuid,
            filter: f,
            class: entity.entity_type,
            last_update_ms: now_ms,
            version: 1,
            agents,
        };
        let c0: i64 = clamp_coord(entity.position[0]);
        let c1: i64 = clamp_coord(entity.position[1]);
        let c2: i64 = clamp_coord(entity.position[2]);
        let ghost locs_before = self.index.locs@;
        self.index.upsert(uuid, c0, c1, c2);
        self.tracks.push(tr);
        self.metrics.tracks_spawned = bump_version(self.metrics.tracks_spawned);
        proof {
            let n = old(self).tracks@.len() as int;
            assert(self.tracks@[n].uuid == uuid);
            assert(views(self.tracks@[n].filter.meas@) =~= Seq::<crate::godview_time::MeasV>::empty());
            assert forall|k: int|
                0 <= k < self.tracks@.len() implies is_tracked(
                self.index.locs@,
                (#[trigger] self.tracks@[k]).uuid,
            ) by {
                let tu = self.tracks@[k].uuid;
                if k == n {
                    let (h, v2) = old(self).index.spec_cell_keys(c0, c1, c2);
                    assert(has_loc(self.index.locs@, tu, h, v2));
                    let w = choose|w: int|
                        0 <= w < self.index.locs@.len() && self.index.locs@[w] == (tu, h, v2);
                    assert(self.index.locs@[w].0 == tu);
                } else {
                    assert(self.tracks@[k] == old(self).tracks@[k]);
                    assert(is_tracked(locs_before, tu));
                    let w0 = choose|w0: int|
                        0 <= w0 < locs_before.len() && (#[trigger] locs_before[w0]).0 == tu;
                    let h = locs_before[w0].1;
                    let v2 = locs_before[w0].2;
                    assert(locs_before[w0] == (tu, h, v2));
                    assert(has_loc(locs_before, tu, h, v2));
                    assert(has_loc(self.index.locs@, tu, h, v2));
                    let w = choose|w: int|
                        0 <= w < self.index.locs@.len() && self.index.locs@[w] == (tu, h, v2);
                    assert(self.index.locs@[w].0 == tu);
                }
            }
        }
        uuid
    }

    /// What absorbing a measurement into track `k` leaves behind: on
    /// success the version bump, timestamps and the exact filter-window
    /// evolution; on a drop, untouched observables and the drop cause.
    #[verifier::opaque]
    pub open spec fn spec_absorbed(
        pre: TrackManager,
        post: TrackManager,
        m: Measurement,
        now_ms: i64,
        k: int,
        r: Result<u128, TrackingError>,
    ) -> bool {
        let t = m.entity.timestamp;
        match r {
            Ok(u) => {
                &&& u == pre.tracks@[k].uuid
                &&& post.tracks@[k].version == spec_bump(pre.tracks@[k].version)
                &&& post.tracks@[k].last_update_ms == now_ms
                &&& ({
                    let f0 = pre.tracks@[k].filter;
                    let f1 = post.tracks@[k].filter;
                    let mv = crate::godview_time::MeasV {
                        t_ms: t,
                        z: m.entity.position@,
                        r: m.noise@,
                    };
                    let ms0 = views(f0.meas@);
                    let ins = ms0.insert(crate::godview_time::insert_pos(ms0, mv), mv);
                    if ins.len() > f0.lag {
                        let st = crate::godview_time::spec_step(
                            (f0.base_x@, f0.base_p@, f0.base_t),
                            ins[0],
                            f0.q_scale,
                        );
                        views(f1.meas@) == ins.drop_first() && f1.base_x@ == st.0 && f1.base_p@
                            == st.1 && f1.base_t == st.2
                    } else {
                        views(f1.meas@) == ins && f1.base_x@ == f0.base_x@ && f1.base_p@
                            == f0.base_p@ && f1.base_t == f0.base_t
                    }
                })
                &&& (forall|j: int|
                    0 <= j < pre.tracks@.len() && j != k ==> obs(#[trigger] post.tracks@[j])
                        == obs(pre.tracks@[j]))
            },
            Err(e) => {
                &&& (forall|j: int|
                    0 <= j < pre.tracks@.len() ==> obs(#[trigger] post.tracks@[j]) == obs(
                        pre.tracks@[j],
                    ))
                &&& ((e == TrackingError::OosmTooOld) <==> t < pre.tracks@[k].filter.base_t)
                &&& ((e == TrackingError::FilterNumeric) <==> (t
                    >= pre.tracks@[k].filter.base_t && crate::godview_time::spec_ill_at(
                    pre.tracks@[k].filter.base_x@,
                    pre.tracks@[k].filter.base_p@,
                    pre.tracks@[k].filter.base_t,
                    views(pre.tracks@[k].filter.meas@),
                    crate::godview_time::MeasV { t_ms: t, z: m.entity.position@, r: m.noise@ },
                    pre.tracks@[k].filter.q_scale,
                )))
            },
        }
    }

    /// Ingests one verified measurement: query the index for nearby tracks,
    /// gate them by innovation distance, feed the best match — or the track
    /// the observation's identity resolves to, directly or through the
    /// tombstones — and spawn a fresh track when nothing is targeted. The
    /// target relation, the spawned track's state, the version bump, the
    /// drop causes and the counters are all pinned below.
    #[verifier::rlimit(100)]
    #[verifier::spinoff_prover]
    pub fn process_measurement(&mut self, m: Measurement, now_ms: i64) -> (r: Result<
        u128,
        TrackingError,
    >)
        requires
            old(self).wf(),
            m.wf(),
        ensures
            final(self).wf(),
            final(self).config == old(self).config,
            final(self).tombstones@ == old(self).tombstones@,
            old(self).tracks@.len() <= final(self).tracks@.len() <= old(self).tracks@.len() + 1,
            final(self).metrics.merges_performed == old(self).metrics.merges_performed,
            final(self).metrics.tracks_retired == old(self).metrics.tracks_retired,
            final(self).metrics.verify_failures == old(self).metrics.verify_failures,
            spec_spawns(*old(self), m) <==> final(self).tracks@.len() == old(self).tracks@.len()
                + 1,
            final(self).tracks@.len() == old(self).tracks@.len() + 1 ==> ({
                let nt = final(self).tracks@[old(self).tracks@.len() as int];
                &&& r == Result::<u128, TrackingError>::Ok(m.entity.id)
                &&& nt.uuid == m.entity.id
                &&& nt.version == 1
                &&& nt.last_update_ms == now_ms
                &&& nt.filter.base_x@ == m.entity.position@ + seq![0i64, 0i64, 0i64, 0i64, 0i64, 0i64]
                &&& nt.filter.base_p@ == spec_p0(old(self).config)
                &&& views(nt.filter.meas@) == Seq::<crate::godview_time::MeasV>::empty()
                &&& is_tracked(final(self).index.locs@, m.entity.id)
                &&& final(self).metrics.tracks_spawned == spec_bump(
                    old(self).metrics.tracks_spawned,
                )
                &&& (forall|k: int|
                    0 <= k < old(self).tracks@.len() ==> obs(#[trigger] final(self).tracks@[k])
                        == obs(old(self).tracks@[k]))
            }),
            final(self).tracks@.len() == old(self).tracks@.len() ==> ({
                final(self).metrics.tracks_spawned == old(self).metrics.tracks_spawned
            }),
            final(self).tracks@.len() == old(self).tracks@.len() ==> exists|k: int|
                #![trigger spec_target(*old(self), m, k)]
                spec_target(*old(self), m, k) && Self::spec_absorbed(
                    *old(self),
                    *final(self),
                    m,
                    now_ms,
                    k,
                    r,
                ),
            r is Ok ==> exists|k: int|
                0 <= k < final(self).tracks@.len() && (#[trigger] final(self).tracks@[k]).uuid
                    == r->Ok_0,
            forall|k1: int, k2: int|
                0 <= k1 < old(self).tracks@.len() && 0 <= k2 < final(self).tracks@.len() && old(
                    self,
                ).tracks@[k1].uuid == final(self).tracks@[k2].uuid ==> (
                #[trigger] final(self).tracks@[k2]).version >= (#[trigger] old(
                    self,
                ).tracks@[k1]).version,
    {
        let ghost gm = m;
        let ghost pre = *old(self);
        let Measurement { entity, noise, agent } = m;
        let t: i64 = entity.timestamp;
        let z: Vec<i64> = take_prefix(&entity.position, 3);
        proof {
            assert(entity.position@.subrange(0, 3) =~= entity.position@);
        }
        let kr: i64 = ceil_div_exec(self.config.max_association_radius, self.config.cell_h);
        let kc: i64 = if kr < i64::MAX {
            kr + 1
        } else {
            kr
        };
        let vk: i64 = ceil_div_exec(self.config.max_association_radius, self.config.voxel_height);
        proof {
            assert(kr == spec_kr(pre.config));
            assert(kc == spec_kc(pre.config));
            assert(vk == spec_vk(pre.config));
        }
        let cands: Vec<u128> = self.index.query_ring(
            entity.position[0],
            entity.position[1],
            entity.position[2],
            kr,
            kc,
            vk,
        );
        proof {
            assert(forall|u: u128|
                #![trigger cands@.contains(u)]
                cands@.contains(u) <==> spec_m_candidate(pre, gm, u));
        }
        let best: Option<usize> = associate(
            &self.tracks,
            &cands,
            &z,
            &noise,
            t,
            self.config.assignment_gate_chi2,
        );
        proof {
            assert forall|j: int|
                0 <= j < pre.tracks@.len() implies (spec_qualified(
                pre.tracks@[j],
                cands@,
                z@,
                noise@,
                t,
                pre.config.assignment_gate_chi2,
            ) <==> spec_m_qualified(pre, gm, j)) by {
                assert(cands@.contains(pre.tracks@[j].uuid) <==> spec_m_candidate(
                    pre,
                    gm,
                    pre.tracks@[j].uuid,
                ));
            }
        }
        let target: Option<usize> = match best {
            Some(i) => {
                proof {
                    assert(spec_m_qualified(pre, gm, i as int));
                    assert(spec_has_match(pre, gm));
                    assert forall|j: int|
                        #![trigger spec_m_qualified(pre, gm, j)]
                        spec_m_qualified(pre, gm, j) implies (spec_m_d2(pre, gm, i as int)
                        < spec_m_d2(pre, gm, j) || (spec_m_d2(pre, gm, i as int) == spec_m_d2(
                        pre,
                        gm,
                        j,
                    ) && pre.tracks@[i as int].uuid <= pre.tracks@[j].uuid)) by {
                        assert(spec_qualified(
                            pre.tracks@[j],
                            cands@,
                            z@,
                            noise@,
                            t,
                            pre.config.assignment_gate_chi2,
                        ));
                    }
                    assert(spec_target(pre, gm, i as int));
                }
                Some(i)
            },
            None => {
                proof {
                    assert(!spec_has_match(pre, gm)) by {
                        if spec_has_match(pre, gm) {
                            let j = choose|j: int| spec_m_qualified(pre, gm, j);
                            assert(spec_qualified(
                                pre.tracks@[j],
                                cands@,
                                z@,
                                noise@,
                                t,
                                pre.config.assignment_gate_chi2,
                            ));
                        }
                    }
                }
                let sid: u128 = self.resolve_tombstone(entity.id);
                let byid: Option<usize> = if sid != entity.id {
                    find_track(&self.tracks, sid)
                } else {
                    None
                };
                match byid {
                    Some(i) => {
                        proof {
                            assert(spec_live(pre, sid));
                            assert(spec_target(pre, gm, i as int));
                        }
                        Some(i)
                    },
                    None => {
                        let byown: Option<usize> = find_track(&self.tracks, entity.id);
                        proof {
                            if sid != entity.id {
                                assert(!spec_live(pre, sid));
                            }
                            match byown {
                                Some(i) => {
                                    assert(spec_live(pre, entity.id));
                                    assert(spec_target(pre, gm, i as int));
                                },
                                None => {
                                    assert(!spec_live(pre, entity.id));
                                },
                            }
                        }
                        byown
                    },
                }
            },
        };
        match target {
            Some(i) => {
                proof {
                    assert(spec_target(pre, gm, i as int));
                }
                let rr = self.absorb(i, z, noise, t, &agent, now_ms);
                proof {
                    lemma_version_monotone(old(self), self, i as int);
                    assert(!spec_spawns(pre, gm));
                    reveal(TrackManager::spec_absorbed);
                    assert(Self::spec_absorbed(pre, *self, gm, now_ms, i as int, rr));
                }
                rr
            },
            None => {
                proof {
                    assert forall|k: int| !#[trigger] spec_target(pre, gm, k) by {}
                    assert(spec_spawns(pre, gm));
                    assert forall|j: int|
                        0 <= j < pre.tracks@.len() implies (#[trigger] pre.tracks@[j]).uuid
                        != entity.id by {
                        if pre.tracks@[j].uuid == entity.id {
                            assert(spec_live(pre, entity.id));
                        }
                    }
                }
                let u = self.spawn(entity, &agent, now_ms);
                proof {
                    let n = old(self).tracks@.len() as int;
                    assert(self.tracks@[n].uuid == u);
                    assert forall|k1: int, k2: int|
                        0 <= k1 < old(self).tracks@.len() && 0 <= k2 < self.tracks@.len() && old(
                            self,
                        ).tracks@[k1].uuid == self.tracks@[k2].uuid implies (
                    #[trigger] self.tracks@[k2]).version >= (#[trigger] old(
                        self,
                    ).tracks@[k1]).version by {
                        if k2 < n {
                            assert(obs(self.tracks@[k2]) == obs(old(self).tracks@[k2]));
                            if k1 != k2 {
                                assert(old(self).tracks@[k1].uuid != old(self).tracks@[k2].uuid);
                            }
                        } else {
                            assert(old(self).tracks@[k1].uuid != u);
                            assert(self.tracks@[k2].uuid == u);
                        }
                    }
                }
                Ok(u)
            },
        }
    }

    /// Records a merge in the tombstone map, evicting the oldest entry when
    /// the map is full.
    fn push_tombstone(&mut self, loser: u128, survivor: u128)
        requires
            old(self).wf(),
            survivor < loser,
        ensures
            final(self).wf(),
            final(self).config == old(self).config,
            final(self).tracks@ == old(self).tracks@,
            final(self).index == old(self).index,
            final(self).metrics == old(self).metrics,
            final(self).tombstones@.contains((loser, survivor)),
    {
        let ghost tomb0 = self.tombstones@;
        self.tombstones.push((loser, survivor));
        if self.tombstones.len() > self.config.tombstone_capacity {
            self.tombstones.remove(0);
        }
        proof {
            if tomb0.len() + 1 > self.config.tombstone_capacity {
                assert(self.tombstones@ =~= tomb0.push((loser, survivor)).remove(0));
                assert(self.tombstones@[self.tombstones@.len() - 1] == (loser, survivor));
            } else {
                assert(self.tombstones@[tomb0.len() as int] == (loser, survivor));
            }
            assert(self.tombstones@.contains((loser, survivor)));
            assert forall|w: int|
                0 <= w < self.tombstones@.len() implies (#[trigger] self.tombstones@[w]).1
                < self.tombstones@[w].0 by {
                if tomb0.len() + 1 > self.config.tombstone_capacity {
                    if w < self.tombstones@.len() - 1 {
                        assert(self.tombstones@[w] == tomb0[w + 1]);
                    }
                } else {
                    if w < tomb0.len() {
                        assert(self.tombstones@[w] == tomb0[w]);
                    }
                }
            }
        }
    }

    /// What a merge leaves of the surviving track: identifier kept, version
    /// bumped, clocks advanced, agent sets unioned, and the belief replaced
    /// by the covariance intersection of the two inputs (kept unchanged when
    /// the fusion is singular).
    #[verifier::opaque]
    pub open spec fn spec_merged(
        pre: TrackManager,
        post: TrackManager,
        a: int,
        b: int,
        now_ms: i64,
    ) -> bool {
        let si = if pre.tracks@[a].uuid < pre.tracks@[b].uuid {
            a
        } else {
            b
        };
        let li = if pre.tracks@[a].uuid < pre.tracks@[b].uuid {
            b
        } else {
            a
        };
        let sv = pre.tracks@[si];
        let lv = pre.tracks@[li];
        exists|k2: int|
            #![trigger post.tracks@[k2]]
            0 <= k2 < post.tracks@.len() && ({
                let nt = post.tracks@[k2];
                &&& nt.uuid == sv.uuid
                &&& nt.version == spec_bump(sv.version)
                &&& nt.last_update_ms == now_ms
                &&& (forall|bq: Seq<u8>|
                    crate::godview_trust::bytes_listed(nt.agents@, bq) <==> (
                    crate::godview_trust::bytes_listed(sv.agents@, bq)
                        || crate::godview_trust::bytes_listed(lv.agents@, bq)))
                &&& ({
                    let tmax = if sv.filter.now_ms >= lv.filter.now_ms {
                        sv.filter.now_ms
                    } else {
                        lv.filter.now_ms
                    };
                    match spec_ci_fuse(sv.filter.x@, sv.filter.p@, lv.filter.x@, lv.filter.p@) {
                        Some(f) => nt.filter.base_x@ == f.0 && nt.filter.base_p@ == f.1
                            && nt.filter.base_t == tmax && views(nt.filter.meas@)
                            == Seq::<crate::godview_time::MeasV>::empty(),
                        None => nt.filter.x@ == sv.filter.x@ && nt.filter.p@ == sv.filter.p@,
                    }
                })
            })
    }

    /// Fuses the loser's belief into the survivor in place: the survivor's
    /// filter restarts from the covariance intersection of the two beliefs
    /// at the later of the two clocks (or keeps its belief when the fusion
    /// is singular), its version bumps, its clock and agent set take the
    /// merge in. No other track, nor the index, tombstones or counters,
    /// moves.
    #[verifier::rlimit(100)]
    #[verifier::spinoff_prover]
    fn fuse_survivor(&mut self, si: usize, li: usize, now_ms: i64)
        requires
            old(self).wf(),
            si < old(self).tracks@.len(),
            li < old(self).tracks@.len(),
            si != li,
        ensures
            final(self).wf(),
            final(self).config == old(self).config,
            final(self).tombstones@ == old(self).tombstones@,
            final(self).index == old(self).index,
            final(self).metrics == old(self).metrics,
            final(self).tracks@.len() == old(self).tracks@.len(),
            forall|k: int|
                0 <= k < old(self).tracks@.len() && k != si as int ==> #[trigger] final(self).tracks@[k]
                    == old(self).tracks@[k],
            ({
                let sv0 = old(self).tracks@[si as int];
                let lv0 = old(self).tracks@[li as int];
                let nt = final(self).tracks@[si as int];
                &&& nt.uuid == sv0.uuid
                &&& nt.version == spec_bump(sv0.version)
                &&& nt.last_update_ms == now_ms
                &&& nt.class@ == sv0.class@
                &&& (forall|bq: Seq<u8>|
                    crate::godview_trust::bytes_listed(nt.agents@, bq) <==> (
                    crate::godview_trust::bytes_listed(sv0.agents@, bq)
                        || crate::godview_trust::bytes_listed(lv0.agents@, bq)))
                &&& ({
                    let tmax = if sv0.filter.now_ms >= lv0.filter.now_ms {
                        sv0.filter.now_ms
                    } else {
                        lv0.filter.now_ms
                    };
                    match spec_ci_fuse(sv0.filter.x@, sv0.filter.p@, lv0.filter.x@, lv0.filter.p@) {
                        Some(f) => nt.filter.base_x@ == f.0 && nt.filter.base_p@ == f.1
                            && nt.filter.base_t == tmax && views(nt.filter.meas@)
                            == Seq::<crate::godview_time::MeasV>::empty(),
                        None => nt.filter.x@ == sv0.filter.x@ && nt.filter.p@ == sv0.filter.p@,
                    }
                })
            }),
    {
        let ghost sv0 = old(self).tracks@[si as int];
        let ghost lv0 = old(self).tracks@[li as int];
        let ghost gfused = spec_ci_fuse(sv0.filter.x@, sv0.filter.p@, lv0.filter.x@, lv0.filter.p@);
        let fused = ci_fuse(
            &self.tracks[si].filter.x,
            &self.tracks[si].filter.p,
            &self.tracks[li].filter.x,
            &self.tracks[li].filter.p,
        );
        let tmax: i64 = if self.tracks[si].filter.now_ms >= self.tracks[li].filter.now_ms {
            self.tracks[si].filter.now_ms
        } else {
            self.tracks[li].filter.now_ms
        };
        let la = clone_agents(&self.tracks[li].agents);
        match fused {
            Some(f) => {
                let q: i64 = self.tracks[si].filter.q_scale;
                let lag: usize = self.tracks[si].filter.lag;
                let nf = AugmentedStateFilter::new(f.0, f.1, q, lag, tmax);
                self.tracks[si].filter = nf;
            },
            None => {},
        }
        proof {
            match gfused {
                Some(f) => {
                    assert(self.tracks@[si as int].filter.base_x@ == f.0);
                    assert(self.tracks@[si as int].filter.base_p@ == f.1);
                    assert(self.tracks@[si as int].filter.base_t == tmax);
                    assert(views(self.tracks@[si as int].filter.meas@)
                        =~= Seq::<crate::godview_time::MeasV>::empty());
                },
                None => {
                    assert(self.tracks@[si as int].filter.x@ == sv0.filter.x@);
                    assert(self.tracks@[si as int].filter.p@ == sv0.filter.p@);
                },
            }
        }
        self.tracks[si].version = bump_version(self.tracks[si].version);
        self.tracks[si].last_update_ms = now_ms;
        let mut merged = clone_agents(&self.tracks[si].agents);
        proof {
            assert forall|bq: Seq<u8>|
                crate::godview_trust::bytes_listed(merged@, bq) <==> (
                crate::godview_trust::bytes_listed(sv0.agents@, bq) || exists|w: int|
                    0 <= w < 0 && (#[trigger] la@[w])@ == bq) by {
                if crate::godview_trust::bytes_listed(merged@, bq) {
                    let w = choose|w: int|
                        0 <= w < merged@.len() && (#[trigger] merged@[w])@ == bq;
                    assert(sv0.agents@[w]@ == bq);
                }
                if crate::godview_trust::bytes_listed(sv0.agents@, bq) {
                    let w = choose|w: int|
                        0 <= w < sv0.agents@.len() && (#[trigger] sv0.agents@[w])@ == bq;
                    assert(merged@[w]@ == bq);
                }
            }
        }
        let mut k: usize = 0;
        while k < la.len()
            invariant
                k <= la.len(),
                forall|w: int| 0 <= w < la@.len() ==> (#[trigger] la@[w])@ == lv0.agents@[w]@,
                la@.len() == lv0.agents@.len(),
                forall|bq: Seq<u8>|
                    crate::godview_trust::bytes_listed(merged@, bq) <==> (
                    crate::godview_trust::bytes_listed(sv0.agents@, bq) || exists|w: int|
                        0 <= w < k && (#[trigger] la@[w])@ == bq),
            decreases la.len() - k,
        {
            add_agent(&mut merged, &la[k]);
            k = k + 1;
        }
        proof {
            assert forall|bq: Seq<u8>|
                crate::godview_trust::bytes_listed(merged@, bq) <==> (
                crate::godview_trust::bytes_listed(sv0.agents@, bq)
                    || crate::godview_trust::bytes_listed(lv0.agents@, bq)) by {
                if exists|w: int| 0 <= w < la@.len() && (#[trigger] la@[w])@ == bq {
                    let w = choose|w: int| 0 <= w < la@.len() && (#[trigger] la@[w])@ == bq;
                    assert(lv0.agents@[w]@ == bq);
                }
                if crate::godview_trust::bytes_listed(lv0.agents@, bq) {
                    let w = choose|w: int|
                        0 <= w < lv0.agents@.len() && (#[trigger] lv0.agents@[w])@ == bq;
                    assert(la@[w]@ == bq);
                }
            }
        }
        self.tracks[si].agents = merged;
    }

    /// Merges the tracks at two indexes under the Highlander rule: the
    /// smaller identifier survives and takes the fused belief, the loser
    /// leaves the live set and the index, and the tombstone map records
    /// loser to survivor, oldest entries leaving first when the map is
    /// full.
    #[verifier::rlimit(100)]
    #[verifier::spinoff_prover]
    pub fn merge_pair(&mut self, a: usize, b: usize, now_ms: i64)
        requires
            old(self).wf(),
            a < old(self).tracks@.len(),
            b < old(self).tracks@.len(),
            a != b,
        ensures
            final(self).wf(),
            final(self).config == old(self).config,
            final(self).tracks@.len() == old(self).tracks@.len() - 1,
            final(self).metrics.merges_performed == spec_bump(
                old(self).metrics.merges_performed,
            ),
            final(self).metrics.tracks_retired == old(self).metrics.tracks_retired,
            final(self).metrics.tracks_spawned == old(self).metrics.tracks_spawned,
            final(self).metrics.oosm_dropped == old(self).metrics.oosm_dropped,
            final(self).metrics.filter_rejects == old(self).metrics.filter_rejects,
            final(self).metrics.verify_failures == old(self).metrics.verify_failures,
            ({
                let ua = old(self).tracks@[a as int].uuid;
                let ub = old(self).tracks@[b as int].uuid;
                let surv = if ua < ub {
                    ua
                } else {
                    ub
                };
                let loser = if ua < ub {
                    ub
                } else {
                    ua
                };
                &&& final(self).tombstones@.contains((loser, surv))
                &&& (forall|k2: int|
                    0 <= k2 < final(self).tracks@.len() ==> (
                    #[trigger] final(self).tracks@[k2]).uuid != loser)
                &&& !is_tracked(final(self).index.locs@, loser)
            }),
            Self::spec_merged(*old(self), *final(self), a as int, b as int, now_ms),
    {
        let ghost tracks0 = self.tracks@;
        let (si, li): (usize, usize) = if self.tracks[a].uuid < self.tracks[b].uuid {
            (a, b)
        } else {
            (b, a)
        };
        proof {
            if a < b {
                assert(tracks0[a as int].uuid != tracks0[b as int].uuid);
            } else {
                assert(tracks0[b as int].uuid != tracks0[a as int].uuid);
            }
        }
        let survivor: u128 = self.tracks[si].uuid;
        let loser: u128 = self.tracks[li].uuid;
        self.fuse_survivor(si, li, now_ms);
        self.push_tombstone(loser, survivor);
        let ghost locs_before = self.index.locs@;
        self.index.remove(loser);
        let st = self.tracks[si].filter.state();
        let c0: i64 = clamp_coord(st.0[0]);
        let c1: i64 = clamp_coord(st.0[1]);
        let c2: i64 = clamp_coord(st.0[2]);
        let ghost locs_mid = self.index.locs@;
        self.index.upsert(survivor, c0, c1, c2);
        let ghost tracks_mid = self.tracks@;
        self.tracks.remove(li);
        self.metrics.merges_performed = bump_version(self.metrics.merges_performed);
        proof {
            let keys = old(self).index.spec_cell_keys(c0, c1, c2);
            lemma_merge_frame(
                tracks0,
                tracks_mid,
                self.tracks@,
                li as int,
                locs_before,
                locs_mid,
                self.index.locs@,
                loser,
                survivor,
                keys.0,
                keys.1,
            );
            let sf = if (si as int) < li as int {
                si as int
            } else {
                si as int - 1
            };
            assert(self.tracks@[sf] == tracks_mid[si as int]);
            assert(self.tracks@[sf].uuid == survivor);
            reveal(TrackManager::spec_merged);
            assert(Self::spec_merged(*old(self), *self, a as int, b as int, now_ms));
        }
    }

    /// One reconciliation sweep: repeatedly merges a compatible pair until
    /// none remains, so afterwards no two live tracks look like duplicates
    /// of one entity; each merge is counted and tombstoned loser to
    /// survivor.
    pub fn reconcile(&mut self, now_ms: i64)
        requires
            old(self).wf(),
        ensures
            final(self).wf(),
            final(self).config == old(self).config,
            final(self).tracks@.len() <= old(self).tracks@.len(),
            forall|x: int, y: int|
                0 <= x < y < final(self).tracks@.len() ==> !spec_compatible(
                    #[trigger] final(self).tracks@[x],
                    #[trigger] final(self).tracks@[y],
                ),
            final(self).metrics.merges_performed == spec_bump_n(
                old(self).metrics.merges_performed,
                old(self).tracks@.len() - final(self).tracks@.len(),
            ),
            final(self).metrics.tracks_retired == old(self).metrics.tracks_retired,
            final(self).metrics.tracks_spawned == old(self).metrics.tracks_spawned,
            final(self).metrics.oosm_dropped == old(self).metrics.oosm_dropped,
            final(self).metrics.filter_rejects == old(self).metrics.filter_rejects,
            final(self).metrics.verify_failures == old(self).metrics.verify_failures,
    {
        loop
            invariant
                self.wf(),
                self.config == old(self).config,
                self.tracks@.len() <= old(self).tracks@.len(),
                self.metrics.merges_performed == spec_bump_n(
                    old(self).metrics.merges_performed,
                    old(self).tracks@.len() - self.tracks@.len(),
                ),
                self.metrics.tracks_retired == old(self).metrics.tracks_retired,
                self.metrics.tracks_spawned == old(self).metrics.tracks_spawned,
                self.metrics.oosm_dropped == old(self).metrics.oosm_dropped,
                self.metrics.filter_rejects == old(self).metrics.filter_rejects,
                self.metrics.verify_failures == old(self).metrics.verify_failures,
            ensures
                forall|x: int, y: int|
                    0 <= x < y < self.tracks@.len() ==> !spec_compatible(
                        #[trigger] self.tracks@[x],
                        #[trigger] self.tracks@[y],
                    ),
            decreases self.tracks.len(),
        {
            let mut pair: Option<(usize, usize)> = None;
            let mut i: usize = 0;
            while i < self.tracks.len()
                invariant
                    self.wf(),
                    pair matches Some(p) ==> p.0 < self.tracks@.len() && p.1 < self.tracks@.len()
                        && p.0 != p.1,
                    pair is None ==> forall|x: int, y: int|
                        0 <= x < y < self.tracks@.len() && x < i ==> !spec_compatible(
                            #[trigger] self.tracks@[x],
                            #[trigger] self.tracks@[y],
                        ),
                ensures
                    pair matches Some(p) ==> p.0 < self.tracks@.len() && p.1 < self.tracks@.len()
                        && p.0 != p.1,
                    pair is None ==> forall|x: int, y: int|
                        0 <= x < y < self.tracks@.len() ==> !spec_compatible(
                            #[trigger] self.tracks@[x],
                            #[trigger] self.tracks@[y],
                        ),
                decreases self.tracks.len() - i,
            {
                let mut j: usize = i + 1;
                while j < self.tracks.len()
                    invariant
                        self.wf(),
                        i < self.tracks@.len(),
                        i < j,
                        pair matches Some(p) ==> p.0 < self.tracks@.len() && p.1
                            < self.tracks@.len() && p.0 != p.1,
                        pair is None ==> forall|y: int|
                            i < y < j ==> !spec_compatible(
                                self.tracks@[i as int],
                                #[trigger] self.tracks@[y],
                            ),
                        pair is None ==> forall|x: int, y: int|
                            0 <= x < y < self.tracks@.len() && x < i ==> !spec_compatible(
                                #[trigger] self.tracks@[x],
                                #[trigger] self.tracks@[y],
                            ),
                    ensures
                        pair matches Some(p) ==> p.0 < self.tracks@.len() && p.1
                            < self.tracks@.len() && p.0 != p.1,
                        pair is None ==> forall|y: int|
                            i < y < self.tracks@.len() ==> !spec_compatible(
                                self.tracks@[i as int],
                                #[trigger] self.tracks@[y],
                            ),
                        pair is None ==> forall|x: int, y: int|
                            0 <= x < y < self.tracks@.len() && x < i ==> !spec_compatible(
                                #[trigger] self.tracks@[x],
                                #[trigger] self.tracks@[y],
                            ),
                    decreases self.tracks.len() - j,
                {
                    if compatible(&self.tracks[i], &self.tracks[j]) {
                        pair = Some((i, j));
                        break ;
                    }
                    j = j + 1;
                }
                if pair.is_some() {
                    break ;
                }
                proof {
                    assert forall|x: int, y: int|
                        0 <= x < y < self.tracks@.len() && x < i as int + 1 implies !spec_compatible(
                        #[trigger] self.tracks@[x],
                        #[trigger] self.tracks@[y],
                    ) by {
                        if x == i as int {
                            assert(!spec_compatible(self.tracks@[i as int], self.tracks@[y]));
                        }
                    }
                }
                i = i + 1;
            }
            match pair {
                None => {
                    break ;
                },
                Some(p) => {
                    self.merge_pair(p.0, p.1, now_ms);
                },
            }
        }
    }

    /// Whether entry `k2` of the current live set is one of the original
    /// tracks, unchanged.
    pub open spec fn came_from(cur: Seq<UniqueTrack>, orig: Seq<UniqueTrack>, k2: int) -> bool {
        exists|k1: int| 0 <= k1 < orig.len() && cur[k2] == #[trigger] orig[k1]
    }

    /// Whether original track `k1` is still present, unchanged, in the
    /// current live set.
    pub open spec fn still_held(cur: Seq<UniqueTrack>, orig: Seq<UniqueTrack>, k1: int) -> bool {
        exists|k2: int| 0 <= k2 < cur.len() && #[trigger] cur[k2] == orig[k1]
    }

    /// Whether original track `k1`'s identifier still awaits the retirement
    /// sweep at or past position `i`.
    pub open spec fn awaits_sweep(
        cur: Seq<UniqueTrack>,
        orig: Seq<UniqueTrack>,
        k1: int,
        i: int,
    ) -> bool {
        exists|k2: int| i <= k2 < cur.len() && (#[trigger] cur[k2]).uuid == orig[k1].uuid
    }

    /// Whether a track has gone idle by `now_ms`.
    pub open spec fn spec_stale(t: UniqueTrack, now_ms: i64, timeout_ms: i64) -> bool {
        sat64(now_ms - t.last_update_ms) >= timeout_ms
    }

    /// Retires every track idle for the configured timeout: it leaves the
    /// live set and the index, the retirement counter advances once for it,
    /// and it is not tombstoned — retirement is not a merge. Fresh tracks
    /// come through untouched.
    #[verifier::rlimit(100)]
    #[verifier::spinoff_prover]
    pub fn retire_idle(&mut self, now_ms: i64)
        requires
            old(self).wf(),
        ensures
            final(self).wf(),
            final(self).config == old(self).config,
            final(self).tombstones@ == old(self).tombstones@,
            final(self).tracks@.len() <= old(self).tracks@.len(),
            forall|k2: int|
                0 <= k2 < final(self).tracks@.len() ==> !Self::spec_stale(
                    #[trigger] final(self).tracks@[k2],
                    now_ms,
                    old(self).config.idle_timeout_ms,
                ),
            forall|k2: int|
                0 <= k2 < final(self).tracks@.len() ==> #[trigger] Self::came_from(
                    final(self).tracks@,
                    old(self).tracks@,
                    k2,
                ),
            forall|k1: int|
                0 <= k1 < old(self).tracks@.len() && !Self::spec_stale(
                    #[trigger] old(self).tracks@[k1],
                    now_ms,
                    old(self).config.idle_timeout_ms,
                ) ==> Self::still_held(final(self).tracks@, old(self).tracks@, k1),
            forall|k1: int|
                0 <= k1 < old(self).tracks@.len() && Self::spec_stale(
                    #[trigger] old(self).tracks@[k1],
                    now_ms,
                    old(self).config.idle_timeout_ms,
                ) ==> !is_tracked(final(self).index.locs@, old(self).tracks@[k1].uuid),
            final(self).metrics.tracks_retired == spec_bump_n(
                old(self).metrics.tracks_retired,
                old(self).tracks@.len() - final(self).tracks@.len(),
            ),
            final(self).metrics.tracks_spawned == old(self).metrics.tracks_spawned,
            final(self).metrics.merges_performed == old(self).metrics.merges_performed,
            final(self).metrics.oosm_dropped == old(self).metrics.oosm_dropped,
            final(self).metrics.filter_rejects == old(self).metrics.filter_rejects,
            final(self).metrics.verify_failures == old(self).metrics.verify_failures,
    {
        let ghost tracks0 = self.tracks@;
        let timeout: i64 = self.config.idle_timeout_ms;
        proof {
            assert forall|k2: int| 0 <= k2 < self.tracks@.len() implies #[trigger] Self::came_from(
                self.tracks@,
                tracks0,
                k2,
            ) by {
                assert(self.tracks@[k2] == tracks0[k2]);
            }
            assert forall|k1: int|
                0 <= k1 < tracks0.len() && !Self::spec_stale(
                    #[trigger] tracks0[k1],
                    now_ms,
                    timeout,
                ) implies Self::still_held(self.tracks@, tracks0, k1) by {
                assert(self.tracks@[k1] == tracks0[k1]);
            }
            assert forall|k1: int|
                0 <= k1 < tracks0.len() && Self::spec_stale(
                    #[trigger] tracks0[k1],
                    now_ms,
                    timeout,
                ) implies (Self::awaits_sweep(self.tracks@, tracks0, k1, 0) || !is_tracked(
                self.index.locs@,
                tracks0[k1].uuid,
            )) by {
                assert(self.tracks@[k1].uuid == tracks0[k1].uuid);
            }
        }
        let mut i: usize = 0;
        while i < self.tracks.len()
            invariant
                self.wf(),
                self.config == old(self).config,
                self.tombstones@ == old(self).tombstones@,
                timeout == old(self).config.idle_timeout_ms,
                tracks0 == old(self).tracks@,
                i <= self.tracks@.len(),
                self.tracks@.len() <= tracks0.len(),
                forall|i0: int, j0: int|
                    0 <= i0 < j0 < tracks0.len() ==> (#[trigger] tracks0[i0]).uuid != (
                    #[trigger] tracks0[j0]).uuid,
                forall|k: int|
                    0 <= k < i ==> !Self::spec_stale(
                        #[trigger] self.tracks@[k],
                        now_ms,
                        timeout,
                    ),
                forall|k2: int|
                    0 <= k2 < self.tracks@.len() ==> #[trigger] Self::came_from(
                        self.tracks@,
                        tracks0,
                        k2,
                    ),
                forall|k1: int|
                    0 <= k1 < tracks0.len() && !Self::spec_stale(
                        #[trigger] tracks0[k1],
                        now_ms,
                        timeout,
                    ) ==> Self::still_held(self.tracks@, tracks0, k1),
                forall|k1: int|
                    0 <= k1 < tracks0.len() && Self::spec_stale(
                        #[trigger] tracks0[k1],
                        now_ms,
                        timeout,
                    ) ==> (Self::awaits_sweep(self.tracks@, tracks0, k1, i as int) || !is_tracked(
                        self.index.locs@,
                        tracks0[k1].uuid,
                    )),
                self.metrics.tracks_retired == spec_bump_n(
                    old(self).metrics.tracks_retired,
                    tracks0.len() - self.tracks@.len(),
                ),
                self.metrics.tracks_spawned == old(self).metrics.tracks_spawned,
                self.metrics.merges_performed == old(self).metrics.merges_performed,
                self.metrics.oosm_dropped == old(self).metrics.oosm_dropped,
                self.metrics.filter_rejects == old(self).metrics.filter_rejects,
                self.metrics.verify_failures == old(self).metrics.verify_failures,
            decreases self.tracks.len() - i,
        {
            let stale: bool = sat64_exec(
                (now_ms as i128) - (self.tracks[i].last_update_ms as i128),
            ) >= timeout;
            proof {
                assert(stale == Self::spec_stale(self.tracks@[i as int], now_ms, timeout));
            }
            if stale {
                let uuid: u128 = self.tracks[i].uuid;
                let ghost mid = self.tracks@;
                let ghost locs_before = self.index.locs@;
                self.index.remove(uuid);
                self.tracks.remove(i);
                self.metrics.tracks_retired = bump_version(self.metrics.tracks_retired);
                proof {
                    lemma_retire_step(
                        tracks0,
                        mid,
                        self.tracks@,
                        i as int,
                        locs_before,
                        self.index.locs@,
                        uuid,
                        now_ms,
                        timeout,
                    );
                }
            } else {
                proof {
                    let li = i as int;
                    assert forall|k1: int|
                        0 <= k1 < tracks0.len() && Self::spec_stale(
                            #[trigger] tracks0[k1],
                            now_ms,
                            timeout,
                        ) implies (Self::awaits_sweep(self.tracks@, tracks0, k1, li + 1)
                        || !is_tracked(self.index.locs@, tracks0[k1].uuid)) by {
                        if Self::awaits_sweep(self.tracks@, tracks0, k1, li) {
                            let k2 = choose|k2: int|
                                li <= k2 < self.tracks@.len() && (
                                #[trigger] self.tracks@[k2]).uuid == tracks0[k1].uuid;
                            if k2 == li {
                                assert(Self::came_from(self.tracks@, tracks0, li));
                                let m = choose|m: int|
                                    0 <= m < tracks0.len() && self.tracks@[li] == #[trigger] tracks0[m];
                                if m != k1 {
                                    if m < k1 {
                                        assert(tracks0[m].uuid != tracks0[k1].uuid);
                                    } else {
                                        assert(tracks0[k1].uuid != tracks0[m].uuid);
                                    }
                                }
                                assert(self.tracks@[li] == tracks0[k1]);
                            } else {
                                assert(self.tracks@[k2].uuid == tracks0[k1].uuid);
                            }
                        }
                    }
                }
                i = i + 1;
            }
        }
    }
}

/// After `absorb` on index `i`, every identifier's version is at least what
/// it was: the untouched tracks kept their observables and the touched one
/// only ever bumps.
proof fn lemma_version_monotone(pre: &TrackManager, post: &TrackManager, i: int)
    requires
        0 <= i < pre.tracks@.len(),
        post.tracks@.len() == pre.tracks@.len(),
        forall|k: int, j: int|
            0 <= k < j < pre.tracks@.len() ==> (#[trigger] pre.tracks@[k]).uuid != (
            #[trigger] pre.tracks@[j]).uuid,
        forall|k: int|
            0 <= k < pre.tracks@.len() && k != i ==> obs(#[trigger] post.tracks@[k]) == obs(
                pre.tracks@[k],
            ),
        forall|k: int|
            0 <= k < pre.tracks@.len() ==> (#[trigger] post.tracks@[k]).uuid
                == pre.tracks@[k].uuid,
        post.tracks@[i].version == pre.tracks@[i].version || post.tracks@[i].version == spec_bump(
            pre.tracks@[i].version,
        ),
    ensures
        forall|k1: int, k2: int|
            0 <= k1 < pre.tracks@.len() && 0 <= k2 < post.tracks@.len() && pre.tracks@[k1].uuid
                == post.tracks@[k2].uuid ==> (#[trigger] post.tracks@[k2]).version >= (
            #[trigger] pre.tracks@[k1]).version,
{
    assert forall|k1: int, k2: int|
        0 <= k1 < pre.tracks@.len() && 0 <= k2 < post.tracks@.len() && pre.tracks@[k1].uuid
            == post.tracks@[k2].uuid implies (#[trigger] post.tracks@[k2]).version >= (
    #[trigger] pre.tracks@[k1]).version by {
        if k1 != k2 {
            assert(pre.tracks@[k1].uuid != pre.tracks@[k2].uuid);
            assert(post.tracks@[k2].uuid == pre.tracks@[k2].uuid);
        } else {
            if k2 != i {
                assert(obs(post.tracks@[k2]) == obs(pre.tracks@[k2]));
            }
        }
    }
}


/// One retirement step: removing a stale track at index `i` (and its index
/// entry) keeps identifiers distinct, the rest indexed and mapped to the
/// original live set, and carries the pending-or-gone bookkeeping for every
/// stale original.
proof fn lemma_retire_step(
    tracks0: Seq<UniqueTrack>,
    mid: Seq<UniqueTrack>,
    fin: Seq<UniqueTrack>,
    i: int,
    locs_before: Seq<(u128, u64, i64)>,
    locs_fin: Seq<(u128, u64, i64)>,
    uuid: u128,
    now_ms: i64,
    timeout: i64,
)
    requires
        0 <= i < mid.len(),
        mid.len() <= tracks0.len(),
        fin == mid.remove(i),
        mid[i].uuid == uuid,
        TrackManager::spec_stale(mid[i], now_ms, timeout),
        forall|i0: int, j0: int|
            0 <= i0 < j0 < tracks0.len() ==> (#[trigger] tracks0[i0]).uuid != (
            #[trigger] tracks0[j0]).uuid,
        forall|i0: int, j0: int|
            0 <= i0 < j0 < mid.len() ==> (#[trigger] mid[i0]).uuid != (#[trigger] mid[j0]).uuid,
        forall|k: int| 0 <= k < i ==> !TrackManager::spec_stale(#[trigger] mid[k], now_ms, timeout),
        forall|k2: int|
            0 <= k2 < mid.len() ==> #[trigger] TrackManager::came_from(mid, tracks0, k2),
        forall|k1: int|
            0 <= k1 < tracks0.len() && !TrackManager::spec_stale(
                #[trigger] tracks0[k1],
                now_ms,
                timeout,
            ) ==> TrackManager::still_held(mid, tracks0, k1),
        forall|k1: int|
            0 <= k1 < tracks0.len() && TrackManager::spec_stale(
                #[trigger] tracks0[k1],
                now_ms,
                timeout,
            ) ==> (TrackManager::awaits_sweep(mid, tracks0, k1, i) || !is_tracked(
                locs_before,
                tracks0[k1].uuid,
            )),
        forall|k2: int| 0 <= k2 < mid.len() ==> is_tracked(locs_before, (#[trigger] mid[k2]).uuid),
        !is_tracked(locs_fin, uuid),
        forall|u: u128, h: u64, v: i64|
            u != uuid ==> (has_loc(locs_fin, u, h, v) <==> has_loc(locs_before, u, h, v)),
    ensures
        forall|k1: int, k2: int|
            0 <= k1 < k2 < fin.len() ==> (#[trigger] fin[k1]).uuid != (#[trigger] fin[k2]).uuid,
        forall|k: int| 0 <= k < i ==> !TrackManager::spec_stale(#[trigger] fin[k], now_ms, timeout),
        forall|k2: int| 0 <= k2 < fin.len() ==> is_tracked(locs_fin, (#[trigger] fin[k2]).uuid),
        forall|k2: int|
            0 <= k2 < fin.len() ==> #[trigger] TrackManager::came_from(fin, tracks0, k2),
        forall|k1: int|
            0 <= k1 < tracks0.len() && !TrackManager::spec_stale(
                #[trigger] tracks0[k1],
                now_ms,
                timeout,
            ) ==> TrackManager::still_held(fin, tracks0, k1),
        forall|k1: int|
            0 <= k1 < tracks0.len() && TrackManager::spec_stale(
                #[trigger] tracks0[k1],
                now_ms,
                timeout,
            ) ==> (TrackManager::awaits_sweep(fin, tracks0, k1, i) || !is_tracked(
                locs_fin,
                tracks0[k1].uuid,
            )),
{
    assert forall|w: int| 0 <= w < fin.len() implies #[trigger] fin[w] == (if w < i {
        mid[w]
    } else {
        mid[w + 1]
    }) by {}
    assert forall|k1: int, k2: int| 0 <= k1 < k2 < fin.len() implies (#[trigger] fin[k1]).uuid != (
    #[trigger] fin[k2]).uuid by {
        let w1 = if k1 < i {
            k1
        } else {
            k1 + 1
        };
        let w2 = if k2 < i {
            k2
        } else {
            k2 + 1
        };
        assert(mid[w1].uuid != mid[w2].uuid);
    }
    assert forall|k2: int|
        #![trigger fin[k2]]
        0 <= k2 < fin.len() implies is_tracked(locs_fin, fin[k2].uuid)
        && TrackManager::came_from(fin, tracks0, k2) by {
        let w = if k2 < i {
            k2
        } else {
            k2 + 1
        };
        let tu = fin[k2].uuid;
        assert(fin[k2] == mid[w]);
        assert(tu != uuid) by {
            if w != i {
                if w < i {
                    assert(mid[w].uuid != mid[i].uuid);
                } else {
                    assert(mid[i].uuid != mid[w].uuid);
                }
            }
        }
        assert(is_tracked(locs_before, tu));
        let w0 = choose|w0: int| 0 <= w0 < locs_before.len() && (#[trigger] locs_before[w0]).0 == tu;
        let h = locs_before[w0].1;
        let v2 = locs_before[w0].2;
        assert(locs_before[w0] == (tu, h, v2));
        assert(has_loc(locs_before, tu, h, v2));
        assert(has_loc(locs_fin, tu, h, v2));
        let ww = choose|ww: int| 0 <= ww < locs_fin.len() && locs_fin[ww] == (tu, h, v2);
        assert(locs_fin[ww].0 == tu);
        assert(TrackManager::came_from(mid, tracks0, w));
        let m1 = choose|m1: int| 0 <= m1 < tracks0.len() && mid[w] == #[trigger] tracks0[m1];
        assert(fin[k2] == tracks0[m1]);
    }
    assert forall|k2: int|
        #![trigger TrackManager::came_from(fin, tracks0, k2)]
        0 <= k2 < fin.len() implies TrackManager::came_from(fin, tracks0, k2) by {
        assert(is_tracked(locs_fin, fin[k2].uuid) && TrackManager::came_from(fin, tracks0, k2));
    }
    assert forall|k2: int| 0 <= k2 < fin.len() implies is_tracked(
        locs_fin,
        (#[trigger] fin[k2]).uuid,
    ) by {
        assert(is_tracked(locs_fin, fin[k2].uuid) && TrackManager::came_from(fin, tracks0, k2));
    }
    assert forall|k1: int|
        0 <= k1 < tracks0.len() && !TrackManager::spec_stale(
            #[trigger] tracks0[k1],
            now_ms,
            timeout,
        ) implies TrackManager::still_held(fin, tracks0, k1) by {
        assert(TrackManager::still_held(mid, tracks0, k1));
        let m = choose|m: int| 0 <= m < mid.len() && #[trigger] mid[m] == tracks0[k1];
        assert(m != i);
        if m < i {
            assert(fin[m] == tracks0[k1]);
        } else {
            assert(fin[m - 1] == tracks0[k1]);
        }
    }
    assert forall|k1: int|
        0 <= k1 < tracks0.len() && TrackManager::spec_stale(
            #[trigger] tracks0[k1],
            now_ms,
            timeout,
        ) implies (TrackManager::awaits_sweep(fin, tracks0, k1, i) || !is_tracked(
        locs_fin,
        tracks0[k1].uuid,
    )) by {
        let tu = tracks0[k1].uuid;
        if tu == uuid {
        } else {
            if TrackManager::awaits_sweep(mid, tracks0, k1, i) {
                let k2 = choose|k2: int| i <= k2 < mid.len() && (#[trigger] mid[k2]).uuid == tu;
                assert(k2 != i);
                assert(fin[k2 - 1].uuid == tu);
                assert(i <= k2 - 1 < fin.len());
            } else {
                assert(!is_tracked(locs_before, tu));
                if is_tracked(locs_fin, tu) {
                    let w = choose|w: int|
                        0 <= w < locs_fin.len() && (#[trigger] locs_fin[w]).0 == tu;
                    let h = locs_fin[w].1;
                    let v2 = locs_fin[w].2;
                    assert(locs_fin[w] == (tu, h, v2));
                    assert(has_loc(locs_fin, tu, h, v2));
                    assert(has_loc(locs_before, tu, h, v2));
                    let w2 = choose|w2: int|
                        0 <= w2 < locs_before.len() && locs_before[w2] == (tu, h, v2);
                    assert(locs_before[w2].0 == tu);
                }
            }
        }
    }
}

/// Entrywise midpoint of two equally sized matrices.
pub open spec fn spec_mat_avg(a: Seq<i64>, b: Seq<i64>) -> Seq<i64> {
    Seq::new(a.len(), |i: int| crate::fixed::fx_avg(a[i], b[i]))
}

/// Computes the entrywise midpoint.
pub fn mat_avg(a: &Vec<i64>, b: &Vec<i64>) -> (r: Vec<i64>)
    requires
        a.len() == b.len(),
    ensures
        r@ == spec_mat_avg(a@, b@),
        r.len() == a.len(),
{
    let mut r: Vec<i64> = Vec::new();
    let mut i: usize = 0;
    while i < a.len()
        invariant
            i <= a.len(),
            a.len() == b.len(),
            r.len() == i,
            forall|t: int| 0 <= t < i ==> r@[t] == crate::fixed::fx_avg(a@[t], b@[t]),
        decreases a.len() - i,
    {
        r.push(crate::fixed::fx_avg_exec(a[i], b[i]));
        i = i + 1;
    }
    proof {
        assert(r@ =~= spec_mat_avg(a@, b@));
    }
    r
}

/// A 3 x 3 diagonal block of a 9 x 9 matrix, at flat offset `base`
/// (0, 30 or 60 for the position, velocity and acceleration blocks).
pub open spec fn spec_block3(p: Seq<i64>, base: int) -> Seq<i64> {
    seq![
        p[base],
        p[base + 1],
        p[base + 2],
        p[base + 9],
        p[base + 10],
        p[base + 11],
        p[base + 18],
        p[base + 19],
        p[base + 20],
    ]
}

/// Extracts a diagonal block.
pub fn block3(p: &Vec<i64>, base: usize) -> (r: Vec<i64>)
    requires
        p.len() == 81,
        base == 0 || base == 30 || base == 60,
    ensures
        r@ == spec_block3(p@, base as int),
        r.len() == 9,
{
    let mut r: Vec<i64> = Vec::new();
    r.push(p[base]);
    r.push(p[base + 1]);
    r.push(p[base + 2]);
    r.push(p[base + 9]);
    r.push(p[base + 10]);
    r.push(p[base + 11]);
    r.push(p[base + 18]);
    r.push(p[base + 19]);
    r.push(p[base + 20]);
    proof {
        assert(r@ =~= spec_block3(p@, base as int));
    }
    r
}

/// A slice of a vector.
pub fn take_range(x: &Vec<i64>, start: usize, n: usize) -> (r: Vec<i64>)
    requires
        start + n <= x.len(),
    ensures
        r@ == x@.subrange(start as int, start as int + n as int),
        r.len() == n,
{
    let mut r: Vec<i64> = Vec::new();
    let mut i: usize = 0;
    while i < n
        invariant
            i <= n,
            start + n <= x.len(),
            r@ == x@.subrange(start as int, start as int + i as int),
            r.len() == i,
        decreases n - i,
    {
        r.push(x[start + i]);
        proof {
            assert(r@ =~= x@.subrange(start as int, start as int + i as int + 1));
        }
        i = i + 1;
    }
    r
}

/// Entry `(i, j)` of the 9 x 9 block-diagonal matrix built from three 3 x 3
/// blocks.
pub open spec fn spec_bd_entry(b0: Seq<i64>, b1: Seq<i64>, b2: Seq<i64>, i: int, j: int) -> i64 {
    if i < 3 && j < 3 {
        b0[i * 3 + j]
    } else if 3 <= i < 6 && 3 <= j < 6 {
        b1[(i - 3) * 3 + (j - 3)]
    } else if 6 <= i && 6 <= j {
        b2[(i - 6) * 3 + (j - 6)]
    } else {
        0
    }
}

/// Row `i` of the block-diagonal matrix, up to column `j`.
pub open spec fn bd_row(b0: Seq<i64>, b1: Seq<i64>, b2: Seq<i64>, i: int, j: int) -> Seq<i64>
    decreases j,
{
    if j <= 0 {
        Seq::empty()
    } else {
        bd_row(b0, b1, b2, i, j - 1).push(spec_bd_entry(b0, b1, b2, i, j - 1))
    }
}

/// The first `i` rows of the block-diagonal matrix.
pub open spec fn bd_rows(b0: Seq<i64>, b1: Seq<i64>, b2: Seq<i64>, i: int) -> Seq<i64>
    decreases i,
{
    if i <= 0 {
        Seq::empty()
    } else {
        bd_rows(b0, b1, b2, i - 1) + bd_row(b0, b1, b2, i - 1, 9)
    }
}

/// The 9 x 9 block-diagonal matrix of three 3 x 3 blocks.
pub open spec fn spec_blockdiag(b0: Seq<i64>, b1: Seq<i64>, b2: Seq<i64>) -> Seq<i64> {
    bd_rows(b0, b1, b2, 9)
}

proof fn lemma_bd_row_len(b0: Seq<i64>, b1: Seq<i64>, b2: Seq<i64>, i: int, j: int)
    requires
        j >= 0,
    ensures
        bd_row(b0, b1, b2, i, j).len() == j,
    decreases j,
{
    if j > 0 {
        lemma_bd_row_len(b0, b1, b2, i, j - 1);
    }
}

proof fn lemma_bd_rows_len(b0: Seq<i64>, b1: Seq<i64>, b2: Seq<i64>, i: int)
    requires
        i >= 0,
    ensures
        bd_rows(b0, b1, b2, i).len() == i * 9,
    decreases i,
{
    if i > 0 {
        lemma_bd_rows_len(b0, b1, b2, i - 1);
        lemma_bd_row_len(b0, b1, b2, i - 1, 9);
        assert((i - 1) * 9 + 9 == i * 9) by (nonlinear_arith);
    } else {
        assert(i * 9 == 0) by (nonlinear_arith)
            requires
                i == 0,
        ;
    }
}

/// Builds the block-diagonal matrix.
pub fn blockdiag(b0: &Vec<i64>, b1: &Vec<i64>, b2: &Vec<i64>) -> (r: Vec<i64>)
    requires
        b0.len() == 9,
        b1.len() == 9,
        b2.len() == 9,
    ensures
        r@ == spec_blockdiag(b0@, b1@, b2@),
        r.len() == 81,
{
    let mut r: Vec<i64> = Vec::new();
    let mut i: usize = 0;
    while i < 9
        invariant
            i <= 9,
            b0.len() == 9,
            b1.len() == 9,
            b2.len() == 9,
            r@ == bd_rows(b0@, b1@, b2@, i as int),
            r.len() == 9 * i,
        decreases 9 - i,
    {
        let mut j: usize = 0;
        while j < 9
            invariant
                i < 9,
                j <= 9,
                b0.len() == 9,
                b1.len() == 9,
                b2.len() == 9,
                r@ == bd_rows(b0@, b1@, b2@, i as int) + bd_row(b0@, b1@, b2@, i as int, j as int),
                r.len() == 9 * i + j,
            decreases 9 - j,
        {
            let v: i64 = if i < 3 && j < 3 {
                b0[i * 3 + j]
            } else if 3 <= i && i < 6 && 3 <= j && j < 6 {
                b1[(i - 3) * 3 + (j - 3)]
            } else if 6 <= i && 6 <= j {
                b2[(i - 6) * 3 + (j - 6)]
            } else {
                0
            };
            proof {
                assert(v == spec_bd_entry(b0@, b1@, b2@, i as int, j as int));
            }
            r.push(v);
            j = j + 1;
        }
        proof {
            lemma_bd_row_len(b0@, b1@, b2@, i as int, 9);
        }
        i = i + 1;
    }
    proof {
        lemma_bd_rows_len(b0@, b1@, b2@, 9);
    }
    r
}

/// Covariance-intersection fusion of one 3 x 3 block pair at equal weights:
/// `P = ((Pa^-1 + Pb^-1) / 2)^-1`; `None` when any inverse is singular at
/// fixed-point precision. The blend weight is fixed at one half rather than
/// searched for a determinant minimum; the consistency of covariance
/// intersection holds for any fixed weight.
pub open spec fn spec_ci_block(pa: Seq<i64>, pb: Seq<i64>) -> Option<Seq<i64>> {
    if spec_det3(pa) == 0 || spec_det3(pb) == 0 {
        None
    } else {
        let mix = spec_mat_avg(spec_inv3(pa), spec_inv3(pb));
        if spec_det3(mix) == 0 {
            None
        } else {
            Some(spec_inv3(mix))
        }
    }
}

/// The fused mean of one block: `P (Pa^-1 xa + Pb^-1 xb) / 2`.
pub open spec fn spec_ci_mean(pf: Seq<i64>, pa: Seq<i64>, pb: Seq<i64>, xa: Seq<i64>, xb: Seq<i64>)
    -> Seq<i64> {
    spec_mat_mul(
        pf,
        spec_mat_avg(
            spec_mat_mul(spec_inv3(pa), xa, 3, 3, 1),
            spec_mat_mul(spec_inv3(pb), xb, 3, 3, 1),
        ),
        3,
        3,
        1,
    )
}

/// Equal-weight covariance intersection over the three diagonal blocks of
/// two beliefs: fused covariance and mean, or `None` when any block is
/// singular at fixed-point precision.
pub open spec fn spec_ci_fuse(xa: Seq<i64>, pa: Seq<i64>, xb: Seq<i64>, pb: Seq<i64>) -> Option<
    (Seq<i64>, Seq<i64>),
> {
    let c0 = spec_ci_block(spec_block3(pa, 0), spec_block3(pb, 0));
    let c1 = spec_ci_block(spec_block3(pa, 30), spec_block3(pb, 30));
    let c2 = spec_ci_block(spec_block3(pa, 60), spec_block3(pb, 60));
    if c0 is None || c1 is None || c2 is None {
        None
    } else {
        let x0 = spec_ci_mean(
            c0->Some_0,
            spec_block3(pa, 0),
            spec_block3(pb, 0),
            xa.subrange(0, 3),
            xb.subrange(0, 3),
        );
        let x1 = spec_ci_mean(
            c1->Some_0,
            spec_block3(pa, 30),
            spec_block3(pb, 30),
            xa.subrange(3, 6),
            xb.subrange(3, 6),
        );
        let x2 = spec_ci_mean(
            c2->Some_0,
            spec_block3(pa, 60),
            spec_block3(pb, 60),
            xa.subrange(6, 9),
            xb.subrange(6, 9),
        );
        Some(
            (
                x0 + x1 + x2,
                crate::matrix::spec_symmetrize(
                    spec_blockdiag(c0->Some_0, c1->Some_0, c2->Some_0),
                    9,
                ),
            ),
        )
    }
}

/// Executable covariance intersection.
#[verifier::rlimit(100)]
pub fn ci_fuse(xa: &Vec<i64>, pa: &Vec<i64>, xb: &Vec<i64>, pb: &Vec<i64>) -> (r: Option<
    (Vec<i64>, Vec<i64>),
>)
    requires
        xa.len() == 9,
        pa.len() == 81,
        xb.len() == 9,
        pb.len() == 81,
    ensures
        r is None <==> spec_ci_fuse(xa@, pa@, xb@, pb@) is None,
        r matches Some(v) ==> {
            &&& spec_ci_fuse(xa@, pa@, xb@, pb@) matches Some(sv)
            &&& (v.0@, v.1@) == sv
            &&& v.0.len() == 9
            &&& v.1.len() == 81
            &&& is_symmetric(v.1@, 9)
        },
{
    let pa0 = block3(pa, 0);
    let pa1 = block3(pa, 30);
    let pa2 = block3(pa, 60);
    let pb0 = block3(pb, 0);
    let pb1 = block3(pb, 30);
    let pb2 = block3(pb, 60);
    let f0 = ci_block(&pa0, &pb0);
    let f1 = ci_block(&pa1, &pb1);
    let f2 = ci_block(&pa2, &pb2);
    match (f0, f1, f2) {
        (Some(c0), Some(c1), Some(c2)) => {
            let xa0 = take_range(xa, 0, 3);
            let xa1 = take_range(xa, 3, 3);
            let xa2 = take_range(xa, 6, 3);
            let xb0 = take_range(xb, 0, 3);
            let xb1 = take_range(xb, 3, 3);
            let xb2 = take_range(xb, 6, 3);
            let m0 = ci_mean(&c0, &pa0, &pb0, &xa0, &xb0);
            let m1 = ci_mean(&c1, &pa1, &pb1, &xa1, &xb1);
            let m2 = ci_mean(&c2, &pa2, &pb2, &xa2, &xb2);
            let mut x: Vec<i64> = Vec::new();
            x.append(&mut m0.clone());
            x.append(&mut m1.clone());
            x.append(&mut m2.clone());
            proof {
                assert(x@ =~= m0@ + m1@ + m2@);
            }
            let bd = blockdiag(&c0, &c1, &c2);
            let p = crate::matrix::symmetrize(&bd, 9);
            Some((x, p))
        },
        _ => None,
    }
}

/// One block of the fusion.
fn ci_block(pa: &Vec<i64>, pb: &Vec<i64>) -> (r: Option<Vec<i64>>)
    requires
        pa.len() == 9,
        pb.len() == 9,
    ensures
        r is None <==> spec_ci_block(pa@, pb@) is None,
        r matches Some(v) ==> spec_ci_block(pa@, pb@) == Some(v@) && v.len() == 9,
{
    match inv3(pa) {
        None => None,
        Some(ia) => {
            match inv3(pb) {
                None => None,
                Some(ib) => {
                    let mix = mat_avg(&ia, &ib);
                    match inv3(&mix) {
                        None => None,
                        Some(pf) => Some(pf),
                    }
                },
            }
        },
    }
}

/// The fused mean of one block.
fn ci_mean(pf: &Vec<i64>, pa: &Vec<i64>, pb: &Vec<i64>, xa: &Vec<i64>, xb: &Vec<i64>) -> (r: Vec<
    i64,
>)
    requires
        pf.len() == 9,
        pa.len() == 9,
        pb.len() == 9,
        xa.len() == 3,
        xb.len() == 3,
        spec_det3(pa@) != 0,
        spec_det3(pb@) != 0,
    ensures
        r@ == spec_ci_mean(pf@, pa@, pb@, xa@, xb@),
        r.len() == 3,
{
    let ia = match inv3(pa) {
        Some(v) => v,
        None => {
            proof {
                assert(false);
            }
            Vec::new()
        },
    };
    let ib = match inv3(pb) {
        Some(v) => v,
        None => {
            proof {
                assert(false);
            }
            Vec::new()
        },
    };
    let ua = mat_mul(&ia, xa, 3, 3, 1);
    let ub = mat_mul(&ib, xb, 3, 3, 1);
    let av = mat_avg(&ua, &ub);
    mat_mul(pf, &av, 3, 3, 1)
}


/// The largest position variance on a covariance's diagonal.
pub open spec fn spec_maxdiag3(p: Seq<i64>) -> i64 {
    if p[0] >= p[10] && p[0] >= p[20] {
        p[0]
    } else if p[10] >= p[20] {
        p[10]
    } else {
        p[20]
    }
}

/// Squared position distance between two state means.
pub open spec fn spec_dist2(xa: Seq<i64>, xb: Seq<i64>) -> i64 {
    crate::fixed::fx_add(
        crate::fixed::fx_add(
            fx_mul(crate::fixed::fx_sub(xa[0], xb[0]), crate::fixed::fx_sub(xa[0], xb[0])),
            fx_mul(crate::fixed::fx_sub(xa[1], xb[1]), crate::fixed::fx_sub(xa[1], xb[1])),
        ),
        fx_mul(crate::fixed::fx_sub(xa[2], xb[2]), crate::fixed::fx_sub(xa[2], xb[2])),
    )
}

/// Whether two tracks look like duplicates of one physical entity: same
/// class tag, and position estimates within each other's uncertainty — the
/// squared distance within 18 times the summed worst position variances,
/// an exact integer surrogate for overlapping 3-sigma ellipsoids.
pub open spec fn spec_compatible(a: UniqueTrack, b: UniqueTrack) -> bool {
    &&& a.class@ == b.class@
    &&& spec_dist2(a.filter.x@, b.filter.x@) <= fx_mul(
        18_000_000,
        fx_add(spec_maxdiag3(a.filter.p@), spec_maxdiag3(b.filter.p@)),
    )
}

/// Tests two tracks for duplicate identity.
pub fn compatible(a: &UniqueTrack, b: &UniqueTrack) -> (r: bool)
    requires
        a.wf(),
        b.wf(),
    ensures
        r == spec_compatible(*a, *b),
{
    if !crate::godview_trust::bytes_eq(&a.class, &b.class) {
        return false;
    }
    let d0: i64 = crate::fixed::fx_sub_exec(a.filter.x[0], b.filter.x[0]);
    let d1: i64 = crate::fixed::fx_sub_exec(a.filter.x[1], b.filter.x[1]);
    let d2: i64 = crate::fixed::fx_sub_exec(a.filter.x[2], b.filter.x[2]);
    let dist: i64 = fx_add_exec(
        fx_add_exec(fx_mul_exec(d0, d0), fx_mul_exec(d1, d1)),
        fx_mul_exec(d2, d2),
    );
    let ma: i64 = if a.filter.p[0] >= a.filter.p[10] && a.filter.p[0] >= a.filter.p[20] {
        a.filter.p[0]
    } else if a.filter.p[10] >= a.filter.p[20] {
        a.filter.p[10]
    } else {
        a.filter.p[20]
    };
    let mb: i64 = if b.filter.p[0] >= b.filter.p[10] && b.filter.p[0] >= b.filter.p[20] {
        b.filter.p[0]
    } else if b.filter.p[10] >= b.filter.p[20] {
        b.filter.p[10]
    } else {
        b.filter.p[20]
    };
    let thr: i64 = fx_mul_exec(18_000_000, fx_add_exec(ma, mb));
    dist <= thr
}

/// Copies a list of agent identifiers.
fn clone_agents(v: &Vec<Vec<u8>>) -> (r: Vec<Vec<u8>>)
    ensures
        r@.len() == v@.len(),
        forall|k: int| 0 <= k < v@.len() ==> (#[trigger] r@[k])@ == v@[k]@,
{
    let mut r: Vec<Vec<u8>> = Vec::new();
    let mut i: usize = 0;
    while i < v.len()
        invariant
            i <= v.len(),
            r@.len() == i,
            forall|k: int| 0 <= k < i ==> (#[trigger] r@[k])@ == v@[k]@,
        decreases v.len() - i,
    {
        let mut c: Vec<u8> = Vec::new();
        c.extend_from_slice(v[i].as_slice());
        proof {
            assert(c@ =~= v@[i as int]@);
        }
        r.push(c);
        i = i + 1;
    }
    r
}


/// Frame conditions of a merge: after the loser leaves the track list and
/// the index (and the survivor's cell is refreshed), identifiers stay
/// pairwise distinct, every live track is still indexed, and no identifier
/// is new.
proof fn lemma_merge_frame(
    tracks0: Seq<UniqueTrack>,
    tracks_mid: Seq<UniqueTrack>,
    fin: Seq<UniqueTrack>,
    li: int,
    locs_before: Seq<(u128, u64, i64)>,
    locs_mid: Seq<(u128, u64, i64)>,
    locs_fin: Seq<(u128, u64, i64)>,
    loser: u128,
    survivor: u128,
    kh: u64,
    kv: i64,
)
    requires
        0 <= li < tracks_mid.len(),
        tracks_mid.len() == tracks0.len(),
        forall|i: int, j: int|
            0 <= i < j < tracks0.len() ==> (#[trigger] tracks0[i]).uuid != (
            #[trigger] tracks0[j]).uuid,
        forall|k: int|
            0 <= k < tracks_mid.len() ==> (#[trigger] tracks_mid[k]).uuid == tracks0[k].uuid,
        fin == tracks_mid.remove(li),
        tracks0[li].uuid == loser,
        survivor != loser,
        !is_tracked(locs_mid, loser),
        forall|k: int|
            0 <= k < tracks0.len() ==> is_tracked(locs_before, (#[trigger] tracks0[k]).uuid),
        forall|u: u128, h: u64, v: i64|
            u != loser ==> (has_loc(locs_mid, u, h, v) <==> has_loc(locs_before, u, h, v)),
        has_loc(locs_fin, survivor, kh, kv),
        forall|u: u128, h: u64, v: i64|
            u != survivor ==> (has_loc(locs_fin, u, h, v) <==> has_loc(locs_mid, u, h, v)),
    ensures
        forall|k1: int, k2: int|
            0 <= k1 < k2 < fin.len() ==> (#[trigger] fin[k1]).uuid != (#[trigger] fin[k2]).uuid,
        forall|k2: int| 0 <= k2 < fin.len() ==> is_tracked(locs_fin, (#[trigger] fin[k2]).uuid),
        forall|k2: int|
            0 <= k2 < fin.len() ==> exists|k1: int|
                0 <= k1 < tracks0.len() && (#[trigger] fin[k2]).uuid == tracks0[k1].uuid,
        forall|k2: int| 0 <= k2 < fin.len() ==> (#[trigger] fin[k2]).uuid != loser,
        !is_tracked(locs_fin, loser),
{
    assert forall|w: int| 0 <= w < fin.len() implies #[trigger] fin[w] == (if w < li {
        tracks_mid[w]
    } else {
        tracks_mid[w + 1]
    }) by {}
    assert forall|k1: int, k2: int| 0 <= k1 < k2 < fin.len() implies (#[trigger] fin[k1]).uuid != (
    #[trigger] fin[k2]).uuid by {
        let w1 = if k1 < li {
            k1
        } else {
            k1 + 1
        };
        let w2 = if k2 < li {
            k2
        } else {
            k2 + 1
        };
        assert(tracks0[w1].uuid != tracks0[w2].uuid);
    }
    assert(!is_tracked(locs_fin, loser)) by {
        if is_tracked(locs_fin, loser) {
            let w = choose|w: int|
                0 <= w < locs_fin.len() && (#[trigger] locs_fin[w]).0 == loser;
            let h = locs_fin[w].1;
            let v2 = locs_fin[w].2;
            assert(locs_fin[w] == (loser, h, v2));
            assert(has_loc(locs_fin, loser, h, v2));
            assert(has_loc(locs_mid, loser, h, v2));
            let w2 = choose|w2: int| 0 <= w2 < locs_mid.len() && locs_mid[w2] == (loser, h, v2);
            assert(locs_mid[w2].0 == loser);
        }
    }
    assert forall|k2: int| 0 <= k2 < fin.len() implies is_tracked(
        locs_fin,
        (#[trigger] fin[k2]).uuid,
    ) && (exists|k1: int|
        0 <= k1 < tracks0.len() && (#[trigger] fin[k2]).uuid == tracks0[k1].uuid) && (
    #[trigger] fin[k2]).uuid != loser by {
        let w = if k2 < li {
            k2
        } else {
            k2 + 1
        };
        let tu = fin[k2].uuid;
        assert(tu == tracks0[w].uuid);
        if tu == survivor {
            let ww = choose|ww: int|
                0 <= ww < locs_fin.len() && locs_fin[ww] == (tu, kh, kv);
            assert(locs_fin[ww].0 == tu);
        } else {
            assert(tu != loser) by {
                if w != li {
                    if w < li {
                        assert(tracks0[w].uuid != tracks0[li].uuid);
                    } else {
                        assert(tracks0[li].uuid != tracks0[w].uuid);
                    }
                }
            }
            assert(is_tracked(locs_before, tu));
            let w0 = choose|w0: int|
                0 <= w0 < locs_before.len() && (#[trigger] locs_before[w0]).0 == tu;
            let h = locs_before[w0].1;
            let v2 = locs_before[w0].2;
            assert(locs_before[w0] == (tu, h, v2));
            assert(has_loc(locs_before, tu, h, v2));
            assert(has_loc(locs_mid, tu, h, v2));
            assert(has_loc(locs_fin, tu, h, v2));
            let ww = choose|ww: int| 0 <= ww < locs_fin.len() && locs_fin[ww] == (tu, h, v2);
            assert(locs_fin[ww].0 == tu);
        }
    }
}

} // verus!
