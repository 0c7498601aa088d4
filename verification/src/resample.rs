//! The per-layer tile bookkeeping decision: given the tiles a redraw
//! needs, what is already resident, what is being fetched and what the
//! persistent cache holds, decide what to cancel, promote, request, evict,
//! and which cached ancestor or child tiles stand in for missing ones.

use vstd::prelude::*;
use vstd::arithmetic::power2::pow2;
use vstd::multiset::Multiset;

use crate::tiling::{TileId, Tiling};

verus! {

/// Whether `v` holds `t`.
pub fn contains_tile(v: &Vec<TileId>, t: &TileId) -> (b: bool)
    ensures
        b == v@.contains(*t),
{
    let mut i: usize = 0;
    while i < v.len()
        invariant
            i <= v@.len(),
            forall|k: int| 0 <= k < i ==> v@[k] != *t,
        decreases v@.len() - i,
    {
        if v[i] == *t {
            return true;
        }
        i = i + 1;
    }
    false
}

/// A copy of a tile list.
pub fn clone_tiles(v: &Vec<TileId>) -> (r: Vec<TileId>)
    ensures
        r@ == v@,
{
    let mut r: Vec<TileId> = Vec::new();
    let mut i: usize = 0;
    while i < v.len()
        invariant
            i <= v@.len(),
            r@ == v@.subrange(0, i as int),
        decreases v@.len() - i,
    {
        r.push(v[i]);
        proof {
            assert(r@ =~= v@.subrange(0, i as int + 1));
        }
        i = i + 1;
    }
    proof {
        assert(r@ =~= v@);
    }
    r
}

/// No entry repeats.
pub open spec fn distinct_tiles(s: Seq<TileId>) -> bool {
    forall|k1: int, k2: int|
        #![trigger s[k1], s[k2]]
        0 <= k1 < k2 < s.len() ==> s[k1] != s[k2]
}

/// The Manhattan distance from the centre tile, used to fetch the tiles
/// under the viewer's eye first; zero when no centre tile is known.
pub open spec fn center_distance(center: Option<TileId>, t: TileId) -> int {
    match center {
        None => 0,
        Some(c) => abs_int(c.x - t.x) + abs_int(c.y - t.y),
    }
}

pub open spec fn abs_int(v: int) -> int {
    if v < 0 {
        -v
    } else {
        v
    }
}

fn center_distance_exec(center: &Option<TileId>, t: &TileId) -> (d: i64)
    ensures
        d == center_distance(*center, *t),
{
    match center {
        None => 0,
        Some(c) => {
            let dx = (c.x as i64) - (t.x as i64);
            let dy = (c.y as i64) - (t.y as i64);
            let ax = if dx < 0 {
                -dx
            } else {
                dx
            };
            let ay = if dy < 0 {
                -dy
            } else {
                dy
            };
            ax + ay
        },
    }
}

/// Sorts tiles by rising Manhattan distance from the centre tile:
/// a selection sort, keeping exactly the given tiles.
pub fn sort_by_center_distance(v: Vec<TileId>, center: &Option<TileId>) -> (r: Vec<TileId>)
    ensures
        r@.to_multiset() == v@.to_multiset(),
        r@.len() == v@.len(),
        forall|k1: int, k2: int|
            0 <= k1 <= k2 < r@.len() ==> center_distance(*center, #[trigger] r@[k1])
                <= center_distance(*center, #[trigger] r@[k2]),
{
    broadcast use vstd::seq_lib::group_seq_properties;

    let mut rest = v;
    let mut out: Vec<TileId> = Vec::new();
    while rest.len() > 0
        invariant
            out@.to_multiset().add(rest@.to_multiset()) == v@.to_multiset(),
            out@.len() + rest@.len() == v@.len(),
            forall|k1: int, k2: int|
                0 <= k1 <= k2 < out@.len() ==> center_distance(*center, #[trigger] out@[k1])
                    <= center_distance(*center, #[trigger] out@[k2]),
            forall|k: int, j: int|
                0 <= k < out@.len() && 0 <= j < rest@.len() ==> center_distance(
                    *center,
                    #[trigger] out@[k],
                ) <= center_distance(*center, #[trigger] rest@[j]),
        decreases rest@.len(),
    {
        let mut best: usize = 0;
        let mut best_d = center_distance_exec(center, &rest[0]);
        let mut i: usize = 1;
        while i < rest.len()
            invariant
                rest@.len() > 0,
                best < i <= rest@.len() || (best == 0 && i <= rest@.len()),
                best < rest@.len(),
                best_d == center_distance(*center, rest@[best as int]),
                forall|k: int|
                    0 <= k < i ==> best_d <= center_distance(*center, #[trigger] rest@[k]),
            decreases rest@.len() - i,
        {
            let d = center_distance_exec(center, &rest[i]);
            if d < best_d {
                best = i;
                best_d = d;
            }
            i = i + 1;
        }
        let ghost old_out = out@;
        let ghost old_rest = rest@;
        let picked = rest.remove(best);
        out.push(picked);
        proof {
            broadcast use vstd::multiset::group_multiset_axioms;

            old_rest.to_multiset_ensures();
            old_out.to_multiset_ensures();
            assert(rest@.to_multiset() == old_rest.to_multiset().remove(picked)) by {
                assert(rest@ == old_rest.remove(best as int));
            }
            assert(out@.to_multiset() == old_out.to_multiset().insert(picked));
            assert(old_rest.contains(picked)) by {
                assert(old_rest[best as int] == picked);
            }
            assert(old_rest.to_multiset().count(picked) > 0);
            assert(out@.to_multiset().add(rest@.to_multiset()) =~= v@.to_multiset());
            assert forall|k: int, j: int|
                0 <= k < out@.len() && 0 <= j < rest@.len() implies center_distance(
                *center,
                #[trigger] out@[k],
            ) <= center_distance(*center, #[trigger] rest@[j]) by {
                if j < best {
                    assert(rest@[j] == old_rest[j]);
                } else {
                    assert(rest@[j] == old_rest[j + 1]);
                }
                if k < out@.len() - 1 {
                    assert(out@[k] == old_out[k]);
                }
            }
        }
    }
    proof {
        broadcast use vstd::multiset::group_multiset_axioms;

        rest@.to_multiset_ensures();
        assert forall|a: TileId| rest@.to_multiset().count(a) == 0 by {
            if rest@.to_multiset().count(a) > 0 {
                assert(rest@.contains(a));
            }
        }
        assert(rest@.to_multiset() =~= Multiset::<TileId>::empty());
        assert(out@.to_multiset() =~= v@.to_multiset());
    }
    out
}


/// The ancestor of `t` that sits `l` levels up the pyramid: the tile whose
/// area contains `t`'s.
pub open spec fn ancestor_at(t: TileId, l: int) -> TileId
    recommends
        0 <= l <= t.z,
{
    TileId {
        z: (t.z - l) as usize,
        x: ((t.x as int) / (pow2(l as nat) as int)) as i32,
        y: ((t.y as int) / (pow2(l as nat) as int)) as i32,
    }
}

/// Whether `a` sits strictly above `b` on the same pyramid path, covering
/// the same screen area at a coarser level.
pub open spec fn strict_ancestor(a: TileId, b: TileId) -> bool {
    a.z < b.z && a == ancestor_at(b, b.z - a.z)
}

/// The ancestor of an in-world tile is in-world at its own level.
pub proof fn lemma_ancestor_in_world(t: TileId, l: int)
    requires
        tile_in_world(t),
        1 <= l <= t.z,
        t.z <= 31,
    ensures
        tile_in_world(ancestor_at(t, l)),
        ancestor_at(t, l).z == t.z - l,
        ancestor_at(t, l).x as int == (t.x as int) / (pow2(l as nat) as int),
        ancestor_at(t, l).y as int == (t.y as int) / (pow2(l as nat) as int),
{
    let p = pow2(l as nat) as int;
    vstd::arithmetic::power2::lemma_pow2_pos(l as nat);
    vstd::arithmetic::power2::lemma_pow2_pos((t.z - l) as nat);
    vstd::arithmetic::power2::lemma_pow2_adds((t.z - l) as nat, l as nat);
    vstd::arithmetic::div_mod::lemma_div_pos_is_pos(t.x as int, p);
    vstd::arithmetic::div_mod::lemma_div_pos_is_pos(t.y as int, p);
    assert((t.x as int) < p * (pow2((t.z - l) as nat) as int) && (t.y as int) < p * (pow2(
        (t.z - l) as nat,
    ) as int)) by (nonlinear_arith)
        requires
            (t.x as int) < pow2(t.z as nat),
            (t.y as int) < pow2(t.z as nat),
            pow2(t.z as nat) == pow2((t.z - l) as nat) * pow2(l as nat),
            p == pow2(l as nat),
    ;
    vstd::arithmetic::div_mod::lemma_multiply_divide_lt(
        t.x as int,
        p,
        pow2((t.z - l) as nat) as int,
    );
    vstd::arithmetic::div_mod::lemma_multiply_divide_lt(
        t.y as int,
        p,
        pow2((t.z - l) as nat) as int,
    );
    assert(pow2((t.z - l) as nat) <= 0x4000_0000) by {
        if t.z - l < 30 {
            vstd::arithmetic::power2::lemma_pow2_strictly_increases((t.z - l) as nat, 30);
        }
        vstd::arithmetic::power2::lemma2_to64();
    }
}

/// The ancestor of an ancestor: levels add up.
pub proof fn lemma_ancestor_compose(t: TileId, a: int, b: int)
    requires
        tile_in_world(t),
        t.z <= 31,
        1 <= a,
        1 <= b,
        a + b <= t.z,
    ensures
        ancestor_at(ancestor_at(t, a), b) == ancestor_at(t, a + b),
{
    lemma_ancestor_in_world(t, a);
    lemma_ancestor_in_world(t, a + b);
    lemma_ancestor_in_world(ancestor_at(t, a), b);
    let pa = pow2(a as nat) as int;
    let pb = pow2(b as nat) as int;
    vstd::arithmetic::power2::lemma_pow2_pos(a as nat);
    vstd::arithmetic::power2::lemma_pow2_pos(b as nat);
    vstd::arithmetic::power2::lemma_pow2_adds(a as nat, b as nat);
    vstd::arithmetic::div_mod::lemma_div_denominator(t.x as int, pa, pb);
    vstd::arithmetic::div_mod::lemma_div_denominator(t.y as int, pa, pb);
}

/// A tile's place under its level-`k` ancestor: the ancestor relation and
/// the index window agree.
pub proof fn lemma_descendant_window(p: TileId, d: TileId, k: int)
    requires
        tile_in_world(p),
        p.z <= 30,
        1 <= k,
        d.z == p.z + k,
    ensures
        (d.x >= 0 && d.y >= 0 && ancestor_at(d, k) == p) <==> ((p.x as int) * (pow2(
            k as nat,
        ) as int) <= d.x as int && (d.x as int) < ((p.x as int) + 1) * (pow2(k as nat) as int)
            && (p.y as int) * (pow2(k as nat) as int) <= d.y as int && (d.y as int) < ((
        p.y as int) + 1) * (pow2(k as nat) as int)),
{
    let pk = pow2(k as nat) as int;
    vstd::arithmetic::power2::lemma_pow2_pos(k as nat);
    assert(((p.x as int) + 1) * pk == (p.x as int) * pk + pk && ((p.y as int) + 1) * pk == (
    p.y as int) * pk + pk) by (nonlinear_arith);
    if (p.x as int) * pk <= d.x as int && (d.x as int) < (p.x as int) * pk + pk && (
    p.y as int) * pk <= d.y as int && (d.y as int) < (p.y as int) * pk + pk {
        vstd::arithmetic::div_mod::lemma_fundamental_div_mod_converse(
            d.x as int,
            pk,
            p.x as int,
            d.x as int - (p.x as int) * pk,
        );
        vstd::arithmetic::div_mod::lemma_fundamental_div_mod_converse(
            d.y as int,
            pk,
            p.y as int,
            d.y as int - (p.y as int) * pk,
        );
        assert((d.x as int) / pk == p.x as int && (d.y as int) / pk == p.y as int);
        assert(d.x >= 0 && d.y >= 0) by (nonlinear_arith)
            requires
                (p.x as int) * pk <= d.x as int,
                (p.y as int) * pk <= d.y as int,
                p.x >= 0,
                p.y >= 0,
                pk >= 1,
        ;
    }
    if d.x >= 0 && d.y >= 0 && ancestor_at(d, k) == p {
        vstd::arithmetic::div_mod::lemma_fundamental_div_mod(d.x as int, pk);
        vstd::arithmetic::div_mod::lemma_fundamental_div_mod(d.y as int, pk);
        assert(0 <= (d.x as int) % pk < pk && 0 <= (d.y as int) % pk < pk) by {
            vstd::arithmetic::div_mod::lemma_mod_division_less_than_divisor(d.x as int, pk);
            vstd::arithmetic::div_mod::lemma_mod_division_less_than_divisor(d.y as int, pk);
        }
        assert((d.x as int) / pk == p.x as int && (d.y as int) / pk == p.y as int) by {
            vstd::arithmetic::div_mod::lemma_div_pos_is_pos(d.x as int, pk);
            vstd::arithmetic::div_mod::lemma_div_pos_is_pos(d.y as int, pk);
            lemma_ancestor_in_world_weak(d, k);
        }
        assert((p.x as int) * pk <= d.x as int && (d.x as int) < (p.x as int) * pk + pk && (
        p.y as int) * pk <= d.y as int && (d.y as int) < (p.y as int) * pk + pk)
            by (nonlinear_arith)
            requires
                d.x as int == pk * ((d.x as int) / pk) + (d.x as int) % pk,
                d.y as int == pk * ((d.y as int) / pk) + (d.y as int) % pk,
                (d.x as int) / pk == p.x as int,
                (d.y as int) / pk == p.y as int,
                0 <= (d.x as int) % pk < pk,
                0 <= (d.y as int) % pk < pk,
        ;
    }
}

/// The coordinates of a nonneg tile's ancestor are its floor-divided own.
proof fn lemma_ancestor_in_world_weak(d: TileId, k: int)
    requires
        d.x >= 0,
        d.y >= 0,
        0 <= k <= d.z,
    ensures
        ancestor_at(d, k).x as int == (d.x as int) / (pow2(k as nat) as int),
        ancestor_at(d, k).y as int == (d.y as int) / (pow2(k as nat) as int),
{
    let pk = pow2(k as nat) as int;
    vstd::arithmetic::power2::lemma_pow2_pos(k as nat);
    vstd::arithmetic::div_mod::lemma_div_pos_is_pos(d.x as int, pk);
    vstd::arithmetic::div_mod::lemma_div_pos_is_pos(d.y as int, pk);
    vstd::arithmetic::div_mod::lemma_div_nonincreasing(d.x as int, pk);
    vstd::arithmetic::div_mod::lemma_div_nonincreasing(d.y as int, pk);
}

/// Whether `t` is a proper tile of the world grid at its level.
pub open spec fn tile_in_world(t: TileId) -> bool {
    &&& 0 <= t.x < pow2(t.z as nat)
    &&& 0 <= t.y < pow2(t.z as nat)
}



/// One needed tile's cover after (part of) a pass: the tile itself is
/// live; or a live recorded stand-in sits above it; or there was no
/// cached ancestor within reach to walk in.
pub open spec fn covered(
    t: TileId,
    tiles: Seq<TileId>,
    dirty: Seq<TileId>,
    fallback: Seq<TileId>,
    cached: Seq<TileId>,
    zc: int,
    max_up: int,
) -> bool {
    ||| live_in(tiles, dirty, t)
    ||| exists|a: TileId|
        #![trigger strict_ancestor(a, t)]
        fallback.contains(a) && live_in(tiles, dirty, a) && strict_ancestor(a, t)
    ||| no_cached_ancestor(t, cached, max_up)
}

/// Every already-processed needed tile that did not enter the pass marked
/// for eviction keeps its cover.
pub open spec fn all_covered(
    done: Seq<TileId>,
    dirty0: Seq<TileId>,
    tiles: Seq<TileId>,
    dirty: Seq<TileId>,
    fallback: Seq<TileId>,
    cached: Seq<TileId>,
    zc: int,
    max_up: int,
) -> bool {
    forall|k: int|
        0 <= k < done.len() && !dirty0.contains(#[trigger] done[k]) ==> covered(
            done[k],
            tiles,
            dirty,
            fallback,
            cached,
            zc,
            max_up,
        )
}

/// A needed tile marked during the pass (not on entry) always sits under
/// a live stand-in: the anti-flicker half of the resample walk.
pub open spec fn marked_under_cover(
    needed: Seq<TileId>,
    dirty0: Seq<TileId>,
    tiles: Seq<TileId>,
    dirty: Seq<TileId>,
    fallback: Seq<TileId>,
) -> bool {
    forall|u: TileId|
        #![trigger needed.contains(u), dirty.contains(u)]
        needed.contains(u) && !dirty0.contains(u) && tiles.contains(u) && dirty.contains(u)
            ==> exists|a: TileId|
            #![trigger strict_ancestor(a, u)]
            fallback.contains(a) && live_in(tiles, dirty, a) && strict_ancestor(a, u)
}

/// Two steps up the pyramid compose.
pub proof fn lemma_strict_ancestor_trans(a: TileId, b: TileId, t: TileId)
    requires
        strict_ancestor(a, b),
        strict_ancestor(b, t),
        tile_in_world(t),
        t.z <= 31,
    ensures
        strict_ancestor(a, t),
{
    lemma_ancestor_compose(t, t.z - b.z, b.z - a.z);
}

/// Attached and not marked for eviction: what will stay resident if the
/// pass ended now.
pub open spec fn live_in(tiles: Seq<TileId>, dirty: Seq<TileId>, u: TileId) -> bool {
    tiles.contains(u) && !dirty.contains(u)
}

/// No two live tiles cover the same screen area at different levels: a
/// stand-in and a better tile are never kept together.
pub open spec fn no_live_ancestor_pair(tiles: Seq<TileId>, dirty: Seq<TileId>) -> bool {
    forall|a: TileId, b: TileId|
        #![trigger strict_ancestor(a, b)]
        live_in(tiles, dirty, a) && live_in(tiles, dirty, b) ==> !strict_ancestor(a, b)
}

/// No ancestor of `t` within the resample depth sits in the cache.
pub open spec fn no_cached_ancestor(t: TileId, cached: Seq<TileId>, max_up: int) -> bool {
    forall|l: int| 1 <= l <= max_up && l <= t.z ==> !cached.contains(#[trigger] ancestor_at(t, l))
}

/// Why a stand-in was walked in: it is a cached ancestor, within the
/// resample depth, of some needed tile; or a cached child of a needed,
/// unattached tile that has no cached ancestor at all.
pub open spec fn fallback_justified(
    u: TileId,
    needed: Seq<TileId>,
    cached: Seq<TileId>,
    base: Seq<TileId>,
    zoom: int,
    max_up: int,
) -> bool {
    ||| (cached.contains(u) && exists|t: TileId, l: int|
        #![trigger needed.contains(t), ancestor_at(t, l)]
        needed.contains(t) && t.z == zoom && tile_in_world(t) && 1 <= l <= max_up && l <= t.z
            && u == ancestor_at(t, l))
    ||| (cached.contains(u) && u.z == zoom + 1 && tile_in_world(u) && needed.contains(
        ancestor_at(u, 1),
    ) && !base.contains(ancestor_at(u, 1)) && no_cached_ancestor(
        ancestor_at(u, 1),
        cached,
        max_up,
    ))
}


/// Why a stand-in may sit in the resident set, said over the pass's own
/// inputs: a cached ancestor of a needed tile within the resample depth,
/// or a cached child of a needed tile that was neither resident nor
/// cached itself and has no cached ancestor at all.
pub open spec fn stand_in_justified(
    u: TileId,
    needed: Seq<TileId>,
    cached: Seq<TileId>,
    resident0: Seq<TileId>,
    zoom: int,
    max_up: int,
) -> bool {
    ||| (cached.contains(u) && exists|t: TileId, l: int|
        #![trigger needed.contains(t), ancestor_at(t, l)]
        needed.contains(t) && t.z == zoom && tile_in_world(t) && 1 <= l <= max_up && l <= t.z
            && u == ancestor_at(t, l))
    ||| (cached.contains(u) && u.z == zoom + 1 && tile_in_world(u) && needed.contains(
        ancestor_at(u, 1),
    ) && !resident0.contains(ancestor_at(u, 1)) && !cached.contains(ancestor_at(u, 1))
        && no_cached_ancestor(ancestor_at(u, 1), cached, max_up))
}

/// Every live tile is a needed tile of the pass's level or a recorded
/// stand-in.
pub open spec fn live_shape(
    tiles: Seq<TileId>,
    dirty: Seq<TileId>,
    fallback: Seq<TileId>,
    needed: Seq<TileId>,
) -> bool {
    forall|u: TileId|
        #![trigger tiles.contains(u)]
        live_in(tiles, dirty, u) ==> (needed.contains(u) || fallback.contains(u))
}

/// Every needed tile sits at the pass's level, inside the world.
pub open spec fn needed_wf(needed: Seq<TileId>, zoom: int) -> bool {
    forall|t: TileId|
        #![trigger needed.contains(t)]
        needed.contains(t) ==> t.z == zoom && tile_in_world(t)
}

/// All recorded stand-ins are justified.
pub open spec fn fallback_shape(
    fallback: Seq<TileId>,
    needed: Seq<TileId>,
    cached: Seq<TileId>,
    base: Seq<TileId>,
    zoom: int,
    max_up: int,
) -> bool {
    forall|u: TileId|
        #![trigger fallback.contains(u)]
        fallback.contains(u) ==> fallback_justified(u, needed, cached, base, zoom, max_up)
}

/// What one redraw pass does to a tiled layer's bookkeeping.
pub struct TilePlan {
    /// Outstanding requests for tiles no longer needed: to cancel.
    pub cancel: Vec<TileId>,
    /// Needed tiles found in the persistent cache: to become resident.
    pub promote: Vec<TileId>,
    /// Needed tiles available nowhere: to fetch, nearest the centre first.
    pub request: Vec<TileId>,
    /// Cached ancestors or children promoted as stand-ins for missing
    /// needed tiles.
    pub fallback: Vec<TileId>,
    /// Resident tiles to drop.
    pub evict: Vec<TileId>,
    /// The resident set after the pass.
    pub resident: Vec<TileId>,
    /// The addresses the pass observed in the persistent cache.
    pub cached_seen: Vec<TileId>,
}

/// One redraw pass of the tile cache and resample resolver: cancels stale
/// fetches, promotes cached needed tiles, orders the remaining wants by
/// distance from the centre, walks cached ancestors (and, failing that,
/// children) in as stand-ins for missing tiles, and collects what to
/// evict.
#[verifier::rlimit(100)]
#[verifier::loop_isolation(false)]
pub fn resolve_tiles(
    tiling: &Tiling,
    zoom: usize,
    needed: &Vec<TileId>,
    center: &Option<TileId>,
    resident0: &Vec<TileId>,
    requesting: &Vec<TileId>,
    cached: &Vec<TileId>,
    stale: &Vec<TileId>,
    max_up_level: u32,
) -> (plan: TilePlan)
    requires
        tiling.wf(),
        zoom < tiling.zoom_count(),
        max_up_level <= 15,
        distinct_tiles(needed@),
        distinct_tiles(resident0@),
        distinct_tiles(requesting@),
        distinct_tiles(cached@),
        forall|k: int|
            0 <= k < needed@.len() ==> (#[trigger] needed@[k]).z == zoom && tile_in_world(
                needed@[k],
            ),
    ensures
        distinct_tiles(plan.cancel@),
        forall|t: TileId|
            plan.cancel@.contains(t) <==> (requesting@.contains(t) && !needed@.contains(t)),
        distinct_tiles(plan.promote@),
        forall|t: TileId|
            plan.promote@.contains(t) <==> (needed@.contains(t) && cached@.contains(t)
                && !resident0@.contains(t)),
        distinct_tiles(plan.request@),
        forall|t: TileId|
            plan.request@.contains(t) <==> (needed@.contains(t) && !resident0@.contains(t)
                && !cached@.contains(t) && !requesting@.contains(t)),
        forall|k1: int, k2: int|
            0 <= k1 <= k2 < plan.request@.len() ==> center_distance(
                *center,
                #[trigger] plan.request@[k1],
            ) <= center_distance(*center, #[trigger] plan.request@[k2]),
        forall|t: TileId| plan.fallback@.contains(t) ==> cached@.contains(t),
        plan.cached_seen@ == cached@,
        distinct_tiles(plan.resident@),
        forall|t: TileId|
            plan.resident@.contains(t) <==> ((resident0@.contains(t) || plan.promote@.contains(
                t,
            ) || plan.fallback@.contains(t)) && !plan.evict@.contains(t)),
        forall|t: TileId|
            plan.evict@.contains(t) ==> (resident0@.contains(t) || plan.promote@.contains(t)
                || plan.fallback@.contains(t)),
        forall|t: TileId|
            plan.evict@.contains(t) <==> ((resident0@.contains(t) || plan.promote@.contains(
                t,
            ) || plan.fallback@.contains(t)) && !plan.resident@.contains(t)),
        forall|u: TileId|
            #[trigger] plan.resident@.contains(u) ==> (needed@.contains(u)
                || stand_in_justified(
                u,
                needed@,
                cached@,
                resident0@,
                zoom as int,
                max_up_level as int,
            )),
        forall|a: TileId, b: TileId|
            plan.resident@.contains(a) && plan.resident@.contains(b) ==> !strict_ancestor(a, b),
        forall|k: int|
            0 <= k < needed@.len() && !stale@.contains(#[trigger] needed@[k]) ==> ({
                let t = needed@[k];
                ||| plan.resident@.contains(t)
                ||| exists|a: TileId|
                    #![trigger strict_ancestor(a, t)]
                    plan.fallback@.contains(a) && plan.resident@.contains(a)
                        && strict_ancestor(a, t)
                ||| no_cached_ancestor(t, cached@, max_up_level as int)
            }),
{
    // cancel requests that are no longer needed
    let mut cancel: Vec<TileId> = Vec::new();
    let mut i: usize = 0;
    while i < requesting.len()
        invariant
            i <= requesting@.len(),
            distinct_tiles(cancel@),
            forall|t: TileId|
                cancel@.contains(t) <==> (requesting@.subrange(0, i as int).contains(t)
                    && !needed@.contains(t)),
        decreases requesting@.len() - i,
    {
        let t = requesting[i];
        let ghost before = cancel@;
        if !contains_tile(needed, &t) {
            proof {
                assert(!cancel@.contains(t)) by {
                    if cancel@.contains(t) {
                        let k = choose|k: int|
                            0 <= k < i && requesting@.subrange(0, i as int)[k] == t;
                        assert(requesting@[k] == t && requesting@[i as int] == t);
                    }
                }
            }
            cancel.push(t);
        }
        proof {
            assert forall|tt: TileId| #[trigger]
                cancel@.contains(tt) implies (requesting@.subrange(0, i as int + 1).contains(tt)
                && !needed@.contains(tt)) by {
                if before.contains(tt) {
                    let k = choose|k: int|
                        0 <= k < i && requesting@.subrange(0, i as int)[k] == tt;
                    assert(requesting@.subrange(0, i as int + 1)[k] == tt);
                } else {
                    assert(tt == t);
                    assert(requesting@.subrange(0, i as int + 1)[i as int] == tt);
                }
            }
            assert forall|tt: TileId|
                (requesting@.subrange(0, i as int + 1).contains(tt) && !needed@.contains(
                    tt,
                )) implies #[trigger] cancel@.contains(tt) by {
                let k = choose|k: int|
                    0 <= k < i + 1 && #[trigger] requesting@.subrange(0, i as int + 1)[k] == tt;
                if k < i {
                    assert(requesting@.subrange(0, i as int)[k] == tt);
                    assert(before.contains(tt));
                    let j = choose|j: int| 0 <= j < before.len() && before[j] == tt;
                    assert(cancel@[j] == tt);
                } else {
                    assert(tt == t);
                    assert(cancel@[cancel@.len() - 1] == tt);
                }
            }
        }
        i = i + 1;
    }
    proof {
        assert(requesting@.subrange(0, requesting@.len() as int) =~= requesting@);
    }
    // promote needed tiles already sitting in the persistent cache
    let mut promote: Vec<TileId> = Vec::new();
    let mut i2: usize = 0;
    while i2 < needed.len()
        invariant
            i2 <= needed@.len(),
            distinct_tiles(promote@),
            forall|t: TileId|
                promote@.contains(t) <==> (needed@.subrange(0, i2 as int).contains(t)
                    && cached@.contains(t) && !resident0@.contains(t)),
        decreases needed@.len() - i2,
    {
        let t = needed[i2];
        let ghost before = promote@;
        if !contains_tile(resident0, &t) && contains_tile(cached, &t) {
            proof {
                assert(!promote@.contains(t)) by {
                    if promote@.contains(t) {
                        let k = choose|k: int|
                            0 <= k < i2 && needed@.subrange(0, i2 as int)[k] == t;
                        assert(needed@[k] == t && needed@[i2 as int] == t);
                    }
                }
            }
            promote.push(t);
        }
        proof {
            assert forall|tt: TileId| #[trigger]
                promote@.contains(tt) implies (needed@.subrange(0, i2 as int + 1).contains(tt)
                && cached@.contains(tt) && !resident0@.contains(tt)) by {
                if before.contains(tt) {
                    let k = choose|k: int|
                        0 <= k < i2 && needed@.subrange(0, i2 as int)[k] == tt;
                    assert(needed@.subrange(0, i2 as int + 1)[k] == tt);
                } else {
                    assert(tt == t);
                    assert(needed@.subrange(0, i2 as int + 1)[i2 as int] == tt);
                }
            }
            assert forall|tt: TileId|
                (needed@.subrange(0, i2 as int + 1).contains(tt) && cached@.contains(tt)
                    && !resident0@.contains(tt)) implies #[trigger] promote@.contains(tt) by {
                let k = choose|k: int|
                    0 <= k < i2 + 1 && #[trigger] needed@.subrange(0, i2 as int + 1)[k] == tt;
                if k < i2 {
                    assert(needed@.subrange(0, i2 as int)[k] == tt);
                    assert(before.contains(tt));
                    let j = choose|j: int| 0 <= j < before.len() && before[j] == tt;
                    assert(promote@[j] == tt);
                } else {
                    assert(tt == t);
                    assert(promote@[promote@.len() - 1] == tt);
                }
            }
        }
        i2 = i2 + 1;
    }
    proof {
        assert(needed@.subrange(0, needed@.len() as int) =~= needed@);
    }
    // the tiles attached after promotion
    let mut tiles: Vec<TileId> = clone_tiles(resident0);
    let mut i3: usize = 0;
    while i3 < promote.len()
        invariant
            i3 <= promote@.len(),
            distinct_tiles(tiles@),
            forall|t: TileId|
                tiles@.contains(t) <==> (resident0@.contains(t) || promote@.subrange(
                    0,
                    i3 as int,
                ).contains(t)),
        decreases promote@.len() - i3,
    {
        let t = promote[i3];
        let ghost before = tiles@;
        proof {
            assert(!resident0@.contains(t));
            assert(!promote@.subrange(0, i3 as int).contains(t)) by {
                if promote@.subrange(0, i3 as int).contains(t) {
                    let k = choose|k: int|
                        0 <= k < i3 && promote@.subrange(0, i3 as int)[k] == t;
                    assert(promote@[k] == t && promote@[i3 as int] == t);
                }
            }
        }
        tiles.push(t);
        proof {
            assert forall|tt: TileId| #[trigger]
                tiles@.contains(tt) implies (resident0@.contains(tt) || promote@.subrange(
                0,
                i3 as int + 1,
            ).contains(tt)) by {
                if before.contains(tt) {
                    if promote@.subrange(0, i3 as int).contains(tt) {
                        let k = choose|k: int|
                            0 <= k < i3 && promote@.subrange(0, i3 as int)[k] == tt;
                        assert(promote@.subrange(0, i3 as int + 1)[k] == tt);
                    }
                } else {
                    assert(tt == t);
                    assert(promote@.subrange(0, i3 as int + 1)[i3 as int] == tt);
                }
            }
            assert forall|tt: TileId|
                (resident0@.contains(tt) || promote@.subrange(0, i3 as int + 1).contains(
                    tt,
                )) implies #[trigger] tiles@.contains(tt) by {
                if before.contains(tt) {
                    let j = choose|j: int| 0 <= j < before.len() && before[j] == tt;
                    assert(tiles@[j] == tt);
                } else {
                    if promote@.subrange(0, i3 as int + 1).contains(tt) {
                        let k = choose|k: int|
                            0 <= k < i3 + 1 && #[trigger] promote@.subrange(0, i3 as int + 1)[k] == tt;
                        if k < i3 {
                            assert(promote@.subrange(0, i3 as int)[k] == tt);
                            assert(before.contains(tt));
                        } else {
                            assert(tt == t);
                            assert(tiles@[tiles@.len() - 1] == tt);
                        }
                    }
                }
            }
        }
        i3 = i3 + 1;
    }
    proof {
        assert(promote@.subrange(0, promote@.len() as int) =~= promote@);
    }
    // request the needed tiles available nowhere, nearest the centre first
    let mut wants: Vec<TileId> = Vec::new();
    let mut i4: usize = 0;
    while i4 < needed.len()
        invariant
            i4 <= needed@.len(),
            distinct_tiles(wants@),
            forall|t: TileId|
                wants@.contains(t) <==> (needed@.subrange(0, i4 as int).contains(t)
                    && !tiles@.contains(t) && !requesting@.contains(t)),
        decreases needed@.len() - i4,
    {
        let t = needed[i4];
        let ghost before = wants@;
        if !contains_tile(&tiles, &t) && !contains_tile(requesting, &t) {
            proof {
                assert(!wants@.contains(t)) by {
                    if wants@.contains(t) {
                        let k = choose|k: int|
                            0 <= k < i4 && needed@.subrange(0, i4 as int)[k] == t;
                        assert(needed@[k] == t && needed@[i4 as int] == t);
                    }
                }
            }
            wants.push(t);
        }
        proof {
            assert forall|tt: TileId| #[trigger]
                wants@.contains(tt) implies (needed@.subrange(0, i4 as int + 1).contains(tt)
                && !tiles@.contains(tt) && !requesting@.contains(tt)) by {
                if before.contains(tt) {
                    let k = choose|k: int|
                        0 <= k < i4 && needed@.subrange(0, i4 as int)[k] == tt;
                    assert(needed@.subrange(0, i4 as int + 1)[k] == tt);
                } else {
                    assert(tt == t);
                    assert(needed@.subrange(0, i4 as int + 1)[i4 as int] == tt);
                }
            }
            assert forall|tt: TileId|
                (needed@.subrange(0, i4 as int + 1).contains(tt) && !tiles@.contains(tt)
                    && !requesting@.contains(tt)) implies #[trigger] wants@.contains(tt) by {
                let k = choose|k: int|
                    0 <= k < i4 + 1 && #[trigger] needed@.subrange(0, i4 as int + 1)[k] == tt;
                if k < i4 {
                    assert(needed@.subrange(0, i4 as int)[k] == tt);
                    assert(before.contains(tt));
                    let j = choose|j: int| 0 <= j < before.len() && before[j] == tt;
                    assert(wants@[j] == tt);
                } else {
                    assert(tt == t);
                    assert(wants@[wants@.len() - 1] == tt);
                }
            }
        }
        i4 = i4 + 1;
    }
    proof {
        assert(needed@.subrange(0, needed@.len() as int) =~= needed@);
    }
    let ghost wants_view = wants@;
    let request = sort_by_center_distance(wants, center);
    proof {
        wants_view.to_multiset_ensures();
        request@.to_multiset_ensures();
        assert forall|t: TileId| request@.contains(t) <==> wants_view.contains(t) by {
            assert(request@.to_multiset().count(t) == wants_view.to_multiset().count(t));
        }
        assert(distinct_tiles(request@)) by {
            assert forall|k1: int, k2: int|
                #![trigger request@[k1], request@[k2]]
                0 <= k1 < k2 < request@.len() implies request@[k1] != request@[k2] by {
                if request@[k1] == request@[k2] {
                    lemma_dup_count(request@, k1, k2);
                    lemma_unique_count(wants_view, request@[k1]);
                }
            }
        }
    }
    // mark what no longer belongs on screen
    let mut dirty: Vec<TileId> = Vec::new();
    let mut i5: usize = 0;
    while i5 < tiles.len()
        invariant
            i5 <= tiles@.len(),
            distinct_tiles(dirty@),
            forall|t: TileId| dirty@.contains(t) ==> tiles@.contains(t),
            forall|t: TileId|
                dirty@.contains(t) <==> (tiles@.subrange(0, i5 as int).contains(t) && (
                !needed@.contains(t) || stale@.contains(t))),
        decreases tiles@.len() - i5,
    {
        let t = tiles[i5];
        let ghost before = dirty@;
        if !contains_tile(needed, &t) || contains_tile(stale, &t) {
            proof {
                assert(!dirty@.contains(t)) by {
                    if dirty@.contains(t) {
                        let k = choose|k: int|
                            0 <= k < i5 && tiles@.subrange(0, i5 as int)[k] == t;
                        assert(tiles@[k] == t && tiles@[i5 as int] == t);
                    }
                }
            }
            dirty.push(t);
        }
        proof {
            assert forall|tt: TileId| #[trigger]
                dirty@.contains(tt) implies (tiles@.subrange(0, i5 as int + 1).contains(tt) && (
                !needed@.contains(tt) || stale@.contains(tt))) by {
                if before.contains(tt) {
                    let k = choose|k: int|
                        0 <= k < i5 && tiles@.subrange(0, i5 as int)[k] == tt;
                    assert(tiles@.subrange(0, i5 as int + 1)[k] == tt);
                } else {
                    assert(tt == t);
                    assert(tiles@.subrange(0, i5 as int + 1)[i5 as int] == tt);
                }
            }
            assert forall|tt: TileId|
                (tiles@.subrange(0, i5 as int + 1).contains(tt) && (!needed@.contains(tt)
                    || stale@.contains(tt))) implies #[trigger] dirty@.contains(tt) by {
                let k = choose|k: int|
                    0 <= k < i5 + 1 && #[trigger] tiles@.subrange(0, i5 as int + 1)[k] == tt;
                if k < i5 {
                    assert(tiles@.subrange(0, i5 as int)[k] == tt);
                    assert(before.contains(tt));
                    let j = choose|j: int| 0 <= j < before.len() && before[j] == tt;
                    assert(dirty@[j] == tt);
                } else {
                    assert(tt == t);
                    assert(dirty@[dirty@.len() - 1] == tt);
                }
            }
            assert forall|tt: TileId| #[trigger] dirty@.contains(tt) implies tiles@.contains(
                tt,
            ) by {
                let k = choose|k: int|
                    0 <= k < i5 + 1 && #[trigger] tiles@.subrange(0, i5 as int + 1)[k] == tt;
                assert(tiles@[k] == tt);
            }
        }
        i5 = i5 + 1;
    }
    proof {
        assert(tiles@.subrange(0, tiles@.len() as int) =~= tiles@);
        assert(forall|u: TileId|
            tiles@.contains(u) && !needed@.contains(u) ==> #[trigger] dirty@.contains(u));
    }
    let ghost tiles_view = tiles@;
    let ghost dirty_view = dirty@;
    let plan = backfill_stand_ins(
        tiling,
        zoom,
        needed,
        cached,
        max_up_level,
        tiles,
        dirty,
        cancel,
        promote,
        request,
    );
    proof {
        assert forall|k: int|
            0 <= k < needed@.len() && !stale@.contains(#[trigger] needed@[k]) implies ({
            let t = needed@[k];
            ||| plan.resident@.contains(t)
            ||| exists|a: TileId|
                #![trigger strict_ancestor(a, t)]
                plan.fallback@.contains(a) && plan.resident@.contains(a) && strict_ancestor(
                    a,
                    t,
                )
            ||| no_cached_ancestor(t, cached@, max_up_level as int)
        }) by {
            let t = needed@[k];
            assert(!dirty_view.contains(t)) by {
                if dirty_view.contains(t) {
                    assert(needed@.contains(t));
                    assert(!needed@.contains(t) || stale@.contains(t));
                }
            }
        }
        assert forall|u: TileId| #[trigger]
            plan.resident@.contains(u) implies (needed@.contains(u) || stand_in_justified(
            u,
            needed@,
            cached@,
            resident0@,
            zoom as int,
            max_up_level as int,
        )) by {
            if !needed@.contains(u) {
                assert(fallback_justified(
                    u,
                    needed@,
                    cached@,
                    tiles_view,
                    zoom as int,
                    max_up_level as int,
                ));
                if u.z == zoom + 1 && cached@.contains(u) && tile_in_world(u)
                    && needed@.contains(ancestor_at(u, 1)) {
                    let p = ancestor_at(u, 1);
                    if !tiles_view.contains(p) {
                        // unattached after promotion: neither resident nor cached
                        assert(!resident0@.contains(p));
                        assert(!cached@.contains(p)) by {
                            if cached@.contains(p) {
                                assert(promote@.contains(p));
                                assert(tiles_view.contains(p));
                            }
                        }
                    }
                }
            }
        }
    }
    plan
}

/// Counting a value that repeats at two positions.
proof fn lemma_dup_count(s: Seq<TileId>, k1: int, k2: int)
    requires
        0 <= k1 < k2 < s.len(),
        s[k1] == s[k2],
    ensures
        s.to_multiset().count(s[k1]) >= 2,
{
    broadcast use vstd::multiset::group_multiset_axioms;

    let t = s[k1];
    let s1 = s.remove(k1);
    s.to_multiset_ensures();
    s1.to_multiset_ensures();
    assert(s1[k2 - 1] == t);
    assert(s1.contains(t));
    assert(s1.to_multiset().count(t) > 0);
    assert(s.to_multiset() == s1.to_multiset().insert(t)) by {
        assert(s.remove(k1).to_multiset() == s.to_multiset().remove(t));
        assert(s.to_multiset().count(t) > 0) by {
            assert(s.contains(t));
        }
        assert(s.to_multiset() =~= s.to_multiset().remove(t).insert(t));
    }
}

/// In a sequence without repeats, every value is counted at most once.
proof fn lemma_unique_count(s: Seq<TileId>, t: TileId)
    requires
        distinct_tiles(s),
    ensures
        s.to_multiset().count(t) <= 1,
    decreases s.len(),
{
    broadcast use vstd::multiset::group_multiset_axioms;

    s.to_multiset_ensures();
    if s.len() == 0 {
        assert(!s.contains(t));
        assert(s.to_multiset().count(t) == 0);
    } else {
        let s1 = s.drop_last();
        assert(distinct_tiles(s1));
        lemma_unique_count(s1, t);
        s1.to_multiset_ensures();
        assert(s == s1.push(s.last()));
        assert(s.to_multiset() == s1.to_multiset().insert(s.last()));
        if s.last() == t {
            assert(!s1.contains(t)) by {
                if s1.contains(t) {
                    let k = choose|k: int| 0 <= k < s1.len() && s1[k] == t;
                    assert(s[k] == t && s[s.len() - 1] == t);
                }
            }
            assert(s1.to_multiset().count(t) == 0);
        }
    }
}

/// Adds `t` unless present: the set grows by at most that member.
pub(crate) fn push_tile(v: &mut Vec<TileId>, t: TileId)
    requires
        distinct_tiles(old(v)@),
    ensures
        distinct_tiles(final(v)@),
        forall|u: TileId| final(v)@.contains(u) <==> (old(v)@.contains(u) || u == t),
        final(v)@.contains(t),
{
    let ghost before = v@;
    if !contains_tile(v, &t) {
        v.push(t);
        proof {
            assert forall|u: TileId| #[trigger]
                v@.contains(u) implies (before.contains(u) || u == t) by {
                let k = choose|k: int| 0 <= k < v@.len() && v@[k] == u;
                if k < v@.len() - 1 {
                    assert(before[k] == u);
                }
            }
            assert forall|u: TileId| (before.contains(u) || u == t) implies #[trigger] v@.contains(
                u,
            ) by {
                if before.contains(u) {
                    let k = choose|k: int| 0 <= k < before.len() && before[k] == u;
                    assert(v@[k] == u);
                } else {
                    assert(v@[v@.len() - 1] == u);
                }
            }
            assert(distinct_tiles(v@)) by {
                assert forall|k1: int, k2: int|
                    #![trigger v@[k1], v@[k2]]
                    0 <= k1 < k2 < v@.len() implies v@[k1] != v@[k2] by {
                    if k2 == v@.len() - 1 {
                        assert(v@[k1] == before[k1]);
                        assert(before.contains(before[k1]));
                    } else {
                        assert(v@[k1] == before[k1] && v@[k2] == before[k2]);
                    }
                }
            }
        }
    }
}

/// Takes `t` out wherever it sits: the set loses at most that member.
pub(crate) fn remove_tile(v: &mut Vec<TileId>, t: &TileId)
    requires
        distinct_tiles(old(v)@),
    ensures
        distinct_tiles(final(v)@),
        forall|u: TileId| final(v)@.contains(u) <==> (old(v)@.contains(u) && u != *t),
{
    let mut i: usize = 0;
    while i < v.len()
        invariant
            i <= v@.len(),
            v@ == old(v)@,
            distinct_tiles(v@),
            forall|k: int| 0 <= k < i ==> v@[k] != *t,
        decreases v@.len() - i,
    {
        if v[i] == *t {
            let ghost before = v@;
            v.remove(i);
            proof {
                before.remove_ensures(i as int);
                assert forall|u: TileId| #[trigger]
                    v@.contains(u) implies (before.contains(u) && u != *t) by {
                    let k = choose|k: int| 0 <= k < v@.len() && v@[k] == u;
                    if k < i {
                        assert(before[k] == u);
                    } else {
                        assert(before[k + 1] == u);
                    }
                    assert(u != *t) by {
                        if k < i {
                            assert(before[k] != before[i as int]);
                        } else {
                            assert(before[k + 1] != before[i as int]);
                        }
                    }
                }
                assert forall|u: TileId| (before.contains(u) && u != *t) implies
                    #[trigger] v@.contains(u) by {
                    let k = choose|k: int| 0 <= k < before.len() && before[k] == u;
                    if k < i {
                        assert(v@[k] == u);
                    } else {
                        assert(k != i);
                        assert(v@[k - 1] == u);
                    }
                }
                assert(distinct_tiles(v@)) by {
                    assert forall|k1: int, k2: int|
                        #![trigger v@[k1], v@[k2]]
                        0 <= k1 < k2 < v@.len() implies v@[k1] != v@[k2] by {
                        let b1: int = if k1 < i {
                            k1
                        } else {
                            k1 + 1
                        };
                        let b2: int = if k2 < i {
                            k2
                        } else {
                            k2 + 1
                        };
                        assert(v@[k1] == before[b1] && v@[k2] == before[b2]);
                    }
                }
            }
            return ;
        }
        i = i + 1;
    }
    proof {
        assert forall|u: TileId| (v@.contains(u) && u != *t) implies v@.contains(u) by {}
        assert(!v@.contains(*t)) by {
            if v@.contains(*t) {
                let k = choose|k: int| 0 <= k < v@.len() && v@[k] == *t;
            }
        }
    }
}

/// An in-world tile's ancestor `level` steps up is in-world at its level.
proof fn lemma_parent_in_world(t: TileId, level: u32)
    requires
        tile_in_world(t),
        1 <= level <= t.z,
        t.z <= 30,
    ensures
        ({
            let p = pow2(level as nat) as int;
            &&& 0 <= (t.x as int) / p < pow2((t.z - level) as nat)
            &&& 0 <= (t.y as int) / p < pow2((t.z - level) as nat)
        }),
{
    let p = pow2(level as nat) as int;
    vstd::arithmetic::power2::lemma_pow2_pos(level as nat);
    vstd::arithmetic::power2::lemma_pow2_pos((t.z - level) as nat);
    vstd::arithmetic::power2::lemma_pow2_adds((t.z - level) as nat, level as nat);
    vstd::arithmetic::div_mod::lemma_div_pos_is_pos(t.x as int, p);
    vstd::arithmetic::div_mod::lemma_div_pos_is_pos(t.y as int, p);
    assert((t.x as int) < p * (pow2((t.z - level) as nat) as int)) by (nonlinear_arith)
        requires
            (t.x as int) < pow2(t.z as nat),
            pow2(t.z as nat) == pow2((t.z - level) as nat) * pow2(level as nat),
            p == pow2(level as nat),
    ;
    assert((t.y as int) < p * (pow2((t.z - level) as nat) as int)) by (nonlinear_arith)
        requires
            (t.y as int) < pow2(t.z as nat),
            pow2(t.z as nat) == pow2((t.z - level) as nat) * pow2(level as nat),
            p == pow2(level as nat),
    ;
    vstd::arithmetic::div_mod::lemma_multiply_divide_lt(
        t.x as int,
        p,
        pow2((t.z - level) as nat) as int,
    );
    vstd::arithmetic::div_mod::lemma_multiply_divide_lt(
        t.y as int,
        p,
        pow2((t.z - level) as nat) as int,
    );
}


/// The attached-tiles bookkeeping: the attached set is exactly the
/// starting set plus the stand-ins walked in so far.
pub open spec fn tiles_cover_inv(tiles: Seq<TileId>, base: Seq<TileId>, fb: Seq<TileId>) -> bool {
    forall|u: TileId|
        #![trigger tiles.contains(u)]
        #![trigger fb.contains(u)]
        tiles.contains(u) <==> (base.contains(u) || fb.contains(u))
}

/// Every stand-in comes out of the persistent cache.
pub open spec fn fb_cached_inv(fb: Seq<TileId>, cached: Seq<TileId>) -> bool {
    forall|u: TileId| #![trigger fb.contains(u)] fb.contains(u) ==> cached.contains(u)
}

/// Adding one stand-in to both the attached set and the stand-in list
/// keeps the bookkeeping.
proof fn lemma_cover_inv_insert(
    tiles_b: Seq<TileId>,
    fb_b: Seq<TileId>,
    tiles_a: Seq<TileId>,
    fb_a: Seq<TileId>,
    base: Seq<TileId>,
    x: TileId,
)
    requires
        tiles_cover_inv(tiles_b, base, fb_b),
        forall|u: TileId|
            #![trigger tiles_a.contains(u)]
            tiles_a.contains(u) <==> (tiles_b.contains(u) || u == x),
        forall|u: TileId|
            #![trigger fb_a.contains(u)]
            fb_a.contains(u) <==> (fb_b.contains(u) || u == x),
        tiles_a.contains(x),
        fb_a.contains(x),
    ensures
        tiles_cover_inv(tiles_a, base, fb_a),
{
    assert forall|u: TileId|
        tiles_a.contains(u) <==> (base.contains(u) || fb_a.contains(u)) by {
        if tiles_a.contains(u) {
            if tiles_b.contains(u) {
                assert(base.contains(u) || fb_b.contains(u));
                if fb_b.contains(u) {
                    assert(fb_a.contains(u));
                }
            } else {
                assert(u == x);
                assert(fb_a.contains(u));
            }
        }
        if base.contains(u) {
            assert(tiles_b.contains(u));
            assert(tiles_a.contains(u));
        }
        if fb_a.contains(u) {
            if fb_b.contains(u) {
                assert(tiles_b.contains(u));
                assert(tiles_a.contains(u));
            } else {
                assert(u == x);
            }
        }
    }
}


/// A rolled-up address is the ancestor at that level, for an in-world
/// tile.
proof fn lemma_roll_is_ancestor(t: TileId, level: u32, r: Option<TileId>)
    requires
        tile_in_world(t),
        t.z <= 31,
        1 <= level <= 30,
        t.z >= level ==> r == Some(
            TileId {
                z: (t.z - level) as usize,
                x: crate::tiling::div_trunc_by_pow2(t.x as int, level as nat) as i32,
                y: crate::tiling::div_trunc_by_pow2(t.y as int, level as nat) as i32,
            },
        ),
        t.z < level ==> r is None,
    ensures
        t.z >= level ==> r == Some(ancestor_at(t, level as int)),
        t.z < level ==> r is None,
{
    if t.z >= level {
        lemma_ancestor_in_world(t, level as int);
        assert(crate::tiling::div_trunc_by_pow2(t.x as int, level as nat) == (t.x as int) / (
        pow2(level as nat) as int));
        assert(crate::tiling::div_trunc_by_pow2(t.y as int, level as nat) == (t.y as int) / (
        pow2(level as nat) as int));
    }
}


/// Covers carry over to the closed pass: live is resident.
proof fn lemma_covered_to_resident(
    needed: Seq<TileId>,
    dirty_in: Seq<TileId>,
    tiles: Seq<TileId>,
    dirty: Seq<TileId>,
    fallback: Seq<TileId>,
    cached: Seq<TileId>,
    resident: Seq<TileId>,
    zc: int,
    max_up: int,
    k: int,
)
    requires
        0 <= k < needed.len(),
        !dirty_in.contains(needed[k]),
        covered(needed[k], tiles, dirty, fallback, cached, zc, max_up),
        forall|u: TileId|
            resident.contains(u) <==> (tiles.contains(u) && !(#[trigger] dirty.contains(u))),
    ensures
        ({
            let t = needed[k];
            ||| resident.contains(t)
            ||| exists|a: TileId|
                #![trigger strict_ancestor(a, t)]
                fallback.contains(a) && resident.contains(a) && strict_ancestor(a, t)
            ||| no_cached_ancestor(t, cached, max_up)
        }),
{
    let t = needed[k];
    if live_in(tiles, dirty, t) {
        assert(resident.contains(t));
    } else if exists|a: TileId|
        fallback.contains(a) && live_in(tiles, dirty, a) && #[trigger] strict_ancestor(a, t) {
        let a0 = choose|a0: TileId|
            fallback.contains(a0) && live_in(tiles, dirty, a0) && #[trigger] strict_ancestor(
                a0,
                t,
            );
        assert(resident.contains(a0));
        assert(strict_ancestor(a0, t));
    }
}


/// Closing the pass: the resident and evict lists inherit every walked
/// invariant — the split of attached tiles, the mutual exclusion of
/// stand-ins and finer tiles, the justification of every stand-in, and
/// the cover of every needed tile.
proof fn lemma_close_pass(
    needed: Seq<TileId>,
    cached: Seq<TileId>,
    tiles0: Seq<TileId>,
    dirty0: Seq<TileId>,
    tiles: Seq<TileId>,
    dirty: Seq<TileId>,
    fb: Seq<TileId>,
    evict: Seq<TileId>,
    resident: Seq<TileId>,
    zoom: int,
    zc: int,
    max_up: int,
)
    requires
        forall|u: TileId|
            #[trigger] evict.contains(u) <==> (dirty.contains(u) && tiles.contains(u)),
        forall|u: TileId|
            #[trigger] resident.contains(u) <==> (tiles.contains(u) && !dirty.contains(u)),
        tiles_cover_inv(tiles, tiles0, fb),
        no_live_ancestor_pair(tiles, dirty),
        live_shape(tiles, dirty, fb, needed),
        fallback_shape(fb, needed, cached, tiles0, zoom, max_up),
        all_covered(needed, dirty0, tiles, dirty, fb, cached, zc, max_up),
    ensures
        forall|u: TileId|
            #[trigger] resident.contains(u) <==> ((tiles0.contains(u) || fb.contains(u))
                && !evict.contains(u)),
        forall|u: TileId|
            #[trigger] evict.contains(u) ==> (tiles0.contains(u) || fb.contains(u)),
        forall|u: TileId|
            #[trigger] evict.contains(u) <==> ((tiles0.contains(u) || fb.contains(u))
                && !resident.contains(u)),
        forall|u: TileId|
            #[trigger] resident.contains(u) ==> (needed.contains(u) || (fb.contains(u)
                && fallback_justified(u, needed, cached, tiles0, zoom, max_up))),
        forall|a: TileId, b: TileId|
            resident.contains(a) && resident.contains(b) ==> !strict_ancestor(a, b),
        forall|k: int|
            0 <= k < needed.len() && !dirty0.contains(#[trigger] needed[k]) ==> ({
                let t = needed[k];
                ||| resident.contains(t)
                ||| exists|a: TileId|
                    #![trigger strict_ancestor(a, t)]
                    fb.contains(a) && resident.contains(a) && strict_ancestor(a, t)
                ||| no_cached_ancestor(t, cached, max_up)
            }),
{
    assert forall|u: TileId| #[trigger]
        resident.contains(u) implies ((tiles0.contains(u) || fb.contains(u))
        && !evict.contains(u)) by {
        assert(tiles.contains(u));
    }
    assert forall|u: TileId|
        ((tiles0.contains(u) || fb.contains(u)) && !(#[trigger] evict.contains(
            u,
        ))) implies resident.contains(u) by {
        assert(tiles.contains(u));
    }
    assert forall|u: TileId| #[trigger]
        evict.contains(u) implies (tiles0.contains(u) || fb.contains(u)) by {
        assert(tiles.contains(u));
    }
    assert forall|u: TileId|
        ((tiles0.contains(u) || fb.contains(u)) && !resident.contains(u)) implies
        #[trigger] evict.contains(u) by {
        assert(tiles.contains(u));
    }
    assert forall|u: TileId| #[trigger]
        resident.contains(u) implies (needed.contains(u) || (fb.contains(u)
        && fallback_justified(u, needed, cached, tiles0, zoom, max_up))) by {
        assert(live_in(tiles, dirty, u));
    }
    assert forall|a: TileId, b: TileId|
        resident.contains(a) && resident.contains(b) implies !(#[trigger] strict_ancestor(
            a,
            b,
        )) by {
        if strict_ancestor(a, b) {
            assert(live_in(tiles, dirty, a) && live_in(tiles, dirty, b));
        }
    }
    assert forall|k: int|
        0 <= k < needed.len() && !dirty0.contains(#[trigger] needed[k]) implies ({
        let t = needed[k];
        ||| resident.contains(t)
        ||| exists|a: TileId|
            #![trigger strict_ancestor(a, t)]
            fb.contains(a) && resident.contains(a) && strict_ancestor(a, t)
        ||| no_cached_ancestor(t, cached, max_up)
    }) by {
        assert(covered(needed[k], tiles, dirty, fb, cached, zc, max_up));
        lemma_covered_to_resident(
            needed,
            dirty0,
            tiles,
            dirty,
            fb,
            cached,
            resident,
            zc,
            max_up,
            k,
        );
    }
}

/// Walking a cached ancestor in as a stand-in keeps every live-set
/// invariant: its covered descendants go dirty, no live ancestor of it
/// existed (the protect scan), and it is itself justified.
proof fn lemma_parent_insert_keeps(
    tiles_b: Seq<TileId>,
    dirty_b: Seq<TileId>,
    fb_b: Seq<TileId>,
    tiles_a: Seq<TileId>,
    dirty_a: Seq<TileId>,
    fb_a: Seq<TileId>,
    needed: Seq<TileId>,
    cached: Seq<TileId>,
    base: Seq<TileId>,
    done: Seq<TileId>,
    dirty0: Seq<TileId>,
    t: TileId,
    parent: TileId,
    level: int,
    zoom: int,
    zc: int,
    max_up: int,
)
    requires
        zoom <= 30,
        1 <= max_up,
        needed_wf(needed, zoom),
        no_live_ancestor_pair(tiles_b, dirty_b),
        live_shape(tiles_b, dirty_b, fb_b, needed),
        fallback_shape(fb_b, needed, cached, base, zoom, max_up),
        needed.contains(t),
        t.z == zoom,
        tile_in_world(t),
        1 <= level <= max_up,
        level <= t.z,
        parent == ancestor_at(t, level),
        cached.contains(parent),
        forall|up: int|
            level + 1 <= up <= max_up && up <= t.z ==> !live_in(
                tiles_b,
                dirty_b,
                #[trigger] ancestor_at(t, up),
            ),
        forall|u: TileId|
            #![trigger tiles_a.contains(u)]
            tiles_a.contains(u) <==> (tiles_b.contains(u) || u == parent),
        forall|u: TileId|
            #![trigger fb_a.contains(u)]
            fb_a.contains(u) <==> (fb_b.contains(u) || u == parent),
        !dirty_a.contains(parent),
        forall|u: TileId|
            u != parent && dirty_b.contains(u) ==> #[trigger] dirty_a.contains(u),
        forall|d: TileId|
            #![trigger strict_ancestor(parent, d)]
            strict_ancestor(parent, d) && d.z <= zoom && d.x >= 0 && d.y >= 0
                ==> dirty_a.contains(d),
        forall|u: TileId|
            #[trigger] dirty_a.contains(u) ==> (dirty_b.contains(u) || (strict_ancestor(
                parent,
                u,
            ) && u.z <= zoom)),
        forall|k: int| 0 <= k < done.len() ==> needed.contains(#[trigger] done[k]),
        all_covered(done, dirty0, tiles_b, dirty_b, fb_b, cached, zc, max_up),
        marked_under_cover(needed, dirty0, tiles_b, dirty_b, fb_b),
        zoom < zc,
    ensures
        no_live_ancestor_pair(tiles_a, dirty_a),
        live_shape(tiles_a, dirty_a, fb_a, needed),
        fallback_shape(fb_a, needed, cached, base, zoom, max_up),
        all_covered(done, dirty0, tiles_a, dirty_a, fb_a, cached, zc, max_up),
        marked_under_cover(needed, dirty0, tiles_a, dirty_a, fb_a),
{
    lemma_ancestor_in_world(t, level);
    assert(parent.z == zoom - level);
    assert forall|a: TileId, b: TileId|
        live_in(tiles_a, dirty_a, a) && live_in(tiles_a, dirty_a, b) implies !(
    #[trigger] strict_ancestor(a, b)) by {
        if strict_ancestor(a, b) {
            if a != parent && b != parent {
                assert(live_in(tiles_b, dirty_b, a) && live_in(tiles_b, dirty_b, b));
            } else if a == parent {
                // a live descendant of the stand-in: covered depths are
                // dirty; only a cached child of a deeper needed tile could
                // survive, and its parent would then have a cached ancestor
                assert(b != parent);
                assert(live_in(tiles_b, dirty_b, b));
                if b.z <= zoom {
                    assert(tile_in_world(b)) by {
                        assert(needed.contains(b) || fb_b.contains(b));
                        if needed.contains(b) {
                        } else {
                            assert(fallback_justified(b, needed, cached, base, zoom, max_up));
                            if b.z == zoom + 1 {
                            } else {
                                let (tw, lw): (TileId, int) = choose|tw: TileId, lw: int|
                                    needed.contains(tw) && tw.z == zoom && tile_in_world(tw)
                                        && 1 <= lw <= max_up && lw <= tw.z && b
                                        == #[trigger] ancestor_at(tw, lw);
                                lemma_ancestor_in_world(tw, lw);
                            }
                        }
                    }
                    assert(dirty_a.contains(b));
                } else {
                    assert(needed.contains(b) || fb_b.contains(b));
                    if needed.contains(b) {
                        assert(b.z == zoom);
                    } else {
                        assert(fallback_justified(b, needed, cached, base, zoom, max_up));
                        if b.z == zoom + 1 {
                            let pb = ancestor_at(b, 1);
                            assert(needed.contains(pb) && no_cached_ancestor(
                                pb,
                                cached,
                                max_up,
                            ));
                            assert(pb.z == zoom);
                            let k = b.z - parent.z;
                            assert(k == level + 1);
                            lemma_ancestor_compose(b, 1, k - 1);
                            assert(ancestor_at(pb, level) == parent);
                            assert(!cached.contains(ancestor_at(pb, level)));
                        } else {
                            let (tw, lw): (TileId, int) = choose|tw: TileId, lw: int|
                                needed.contains(tw) && tw.z == zoom && tile_in_world(tw) && 1
                                    <= lw <= max_up && lw <= tw.z && b == #[trigger] ancestor_at(
                                    tw,
                                    lw,
                                );
                            lemma_ancestor_in_world(tw, lw);
                            assert(b.z == zoom - lw);
                            assert(b.z < zoom);
                            assert(false);
                        }
                    }
                }
            } else {
                // a live ancestor of the stand-in would have stopped the
                // protect scan
                assert(b == parent && a != parent);
                assert(live_in(tiles_b, dirty_b, a));
                assert(a.z < parent.z);
                assert(needed.contains(a) || fb_b.contains(a));
                if needed.contains(a) {
                    assert(a.z == zoom);
                    assert(false);
                }
                assert(fallback_justified(a, needed, cached, base, zoom, max_up));
                if a.z == zoom + 1 {
                    assert(false);
                }
                let (tw, lw): (TileId, int) = choose|tw: TileId, lw: int|
                    needed.contains(tw) && tw.z == zoom && tile_in_world(tw) && 1 <= lw
                        <= max_up && lw <= tw.z && a == #[trigger] ancestor_at(tw, lw);
                lemma_ancestor_in_world(tw, lw);
                assert(a.z == zoom - lw);
                let k = parent.z - a.z;
                assert(k >= 1);
                assert(a == ancestor_at(parent, k));
                lemma_ancestor_compose(t, level, k);
                assert(a == ancestor_at(t, level + k));
                assert(level + k == zoom - a.z);
                assert(level + k == lw);
                assert(level + 1 <= level + k <= max_up && level + k <= t.z);
                assert(!live_in(tiles_b, dirty_b, ancestor_at(t, level + k)));
                assert(false);
            }
        }
    }
    assert forall|u: TileId| #[trigger]
        tiles_a.contains(u) && live_in(tiles_a, dirty_a, u) implies (needed.contains(u)
        || fb_a.contains(u)) by {
        if u != parent {
            assert(live_in(tiles_b, dirty_b, u));
        }
    }
    assert forall|u: TileId| #[trigger] fb_a.contains(u) implies fallback_justified(
        u,
        needed,
        cached,
        base,
        zoom,
        max_up,
    ) by {
        if !fb_b.contains(u) {
            assert(u == parent);
            assert(needed.contains(t) && t.z == zoom && tile_in_world(t) && 1 <= level
                <= max_up && level <= t.z && u == ancestor_at(t, level));
        }
    }
    assert(live_in(tiles_a, dirty_a, parent));
    assert forall|u: TileId|
        needed.contains(u) && !dirty0.contains(u) && tiles_a.contains(u) && #[trigger]
        dirty_a.contains(u) implies exists|a: TileId|
        #![trigger strict_ancestor(a, u)]
        fb_a.contains(a) && live_in(tiles_a, dirty_a, a) && strict_ancestor(a, u) by {
        assert(u.z == zoom && tile_in_world(u));
        assert(u != parent);
        assert(tiles_b.contains(u));
        if dirty_b.contains(u) {
            let a0 = choose|a0: TileId|
                fb_b.contains(a0) && live_in(tiles_b, dirty_b, a0) && #[trigger] strict_ancestor(
                    a0,
                    u,
                );
            if dirty_a.contains(a0) {
                assert(strict_ancestor(parent, a0) && a0.z <= zoom);
                lemma_strict_ancestor_trans(parent, a0, u);
                assert(strict_ancestor(parent, u));
            } else {
                assert(fb_a.contains(a0) && live_in(tiles_a, dirty_a, a0));
                assert(strict_ancestor(a0, u));
            }
        } else {
            assert(strict_ancestor(parent, u));
        }
    }
    assert forall|k: int|
        0 <= k < done.len() && !dirty0.contains(#[trigger] done[k]) implies covered(
        done[k],
        tiles_a,
        dirty_a,
        fb_a,
        cached,
        zc,
        max_up,
    ) by {
        let t0 = done[k];
        assert(needed.contains(t0));
        assert(t0.z == zoom && tile_in_world(t0));
        assert(covered(t0, tiles_b, dirty_b, fb_b, cached, zc, max_up));
        if live_in(tiles_b, dirty_b, t0) {
            if dirty_a.contains(t0) {
                assert(strict_ancestor(parent, t0));
                assert(fb_a.contains(parent) && live_in(tiles_a, dirty_a, parent));
            } else {
                assert(live_in(tiles_a, dirty_a, t0));
            }
        } else if exists|a: TileId|
            fb_b.contains(a) && live_in(tiles_b, dirty_b, a) && #[trigger] strict_ancestor(
                a,
                t0,
            ) {
            let a0 = choose|a0: TileId|
                fb_b.contains(a0) && live_in(tiles_b, dirty_b, a0) && #[trigger] strict_ancestor(
                    a0,
                    t0,
                );
            if dirty_a.contains(a0) {
                assert(strict_ancestor(parent, a0) && a0.z <= zoom);
                lemma_strict_ancestor_trans(parent, a0, t0);
                assert(strict_ancestor(parent, t0));
            } else {
                assert(fb_a.contains(a0) && live_in(tiles_a, dirty_a, a0));
                assert(strict_ancestor(a0, t0));
            }
        } else {
            assert(no_cached_ancestor(t0, cached, max_up));
        }
    }
}

/// Walking a cached child in as a stand-in keeps every live-set
/// invariant: its needed parent is unattached and has no cached ancestor,
/// so no live tile covers the child's area.
proof fn lemma_child_insert_keeps(
    tiles_b: Seq<TileId>,
    dirty_b: Seq<TileId>,
    fb_b: Seq<TileId>,
    tiles_a: Seq<TileId>,
    dirty_a: Seq<TileId>,
    fb_a: Seq<TileId>,
    needed: Seq<TileId>,
    cached: Seq<TileId>,
    base: Seq<TileId>,
    done: Seq<TileId>,
    dirty0: Seq<TileId>,
    t: TileId,
    c: TileId,
    zoom: int,
    zc: int,
    max_up: int,
)
    requires
        zoom <= 30,
        0 <= max_up,
        needed_wf(needed, zoom),
        no_live_ancestor_pair(tiles_b, dirty_b),
        live_shape(tiles_b, dirty_b, fb_b, needed),
        fallback_shape(fb_b, needed, cached, base, zoom, max_up),
        needed.contains(t),
        t.z == zoom,
        tile_in_world(t),
        c.z == zoom + 1,
        tile_in_world(c),
        ancestor_at(c, 1) == t,
        cached.contains(c),
        !tiles_b.contains(t),
        forall|u: TileId| base.contains(u) ==> #[trigger] tiles_b.contains(u),
        no_cached_ancestor(t, cached, max_up),
        forall|u: TileId|
            #![trigger tiles_a.contains(u)]
            tiles_a.contains(u) <==> (tiles_b.contains(u) || u == c),
        forall|u: TileId|
            #![trigger fb_a.contains(u)]
            fb_a.contains(u) <==> (fb_b.contains(u) || u == c),
        forall|u: TileId|
            #![trigger dirty_a.contains(u)]
            dirty_a.contains(u) <==> (dirty_b.contains(u) && u != c),
        forall|k: int| 0 <= k < done.len() ==> needed.contains(#[trigger] done[k]),
        all_covered(done, dirty0, tiles_b, dirty_b, fb_b, cached, zc, max_up),
        marked_under_cover(needed, dirty0, tiles_b, dirty_b, fb_b),
        zoom < zc,
    ensures
        no_live_ancestor_pair(tiles_a, dirty_a),
        live_shape(tiles_a, dirty_a, fb_a, needed),
        fallback_shape(fb_a, needed, cached, base, zoom, max_up),
        all_covered(done, dirty0, tiles_a, dirty_a, fb_a, cached, zc, max_up),
        marked_under_cover(needed, dirty0, tiles_a, dirty_a, fb_a),
{
    assert forall|a: TileId, b: TileId|
        live_in(tiles_a, dirty_a, a) && live_in(tiles_a, dirty_a, b) implies !(
    #[trigger] strict_ancestor(a, b)) by {
        if strict_ancestor(a, b) {
            if a != c && b != c {
                assert(live_in(tiles_b, dirty_b, a) && live_in(tiles_b, dirty_b, b));
            } else if a == c {
                // nothing live sits below a level past the pass
                assert(b != c && live_in(tiles_b, dirty_b, b));
                assert(b.z > zoom + 1);
                assert(needed.contains(b) || fb_b.contains(b));
                if needed.contains(b) {
                    assert(b.z == zoom);
                } else {
                    assert(fallback_justified(b, needed, cached, base, zoom, max_up));
                    if b.z != zoom + 1 {
                        let (tw, lw): (TileId, int) = choose|tw: TileId, lw: int|
                            needed.contains(tw) && tw.z == zoom && tile_in_world(tw) && 1 <= lw
                                <= max_up && lw <= tw.z && b == #[trigger] ancestor_at(tw, lw);
                        lemma_ancestor_in_world(tw, lw);
                    }
                }
                assert(false);
            } else {
                // a live ancestor of the child would be its unattached
                // parent, or a cached ancestor the scan ruled out
                assert(b == c && a != c);
                assert(live_in(tiles_b, dirty_b, a));
                let k = c.z - a.z;
                assert(k >= 1);
                assert(a == ancestor_at(c, k));
                if k == 1 {
                    assert(a == t);
                    assert(tiles_b.contains(t));
                    assert(false);
                } else {
                    lemma_ancestor_compose(c, 1, k - 1);
                    assert(a == ancestor_at(t, k - 1));
                    assert(a.z == zoom + 1 - k);
                    assert(a.z < zoom);
                    assert(needed.contains(a) || fb_b.contains(a));
                    if needed.contains(a) {
                        assert(a.z == zoom);
                        assert(false);
                    }
                    assert(fallback_justified(a, needed, cached, base, zoom, max_up));
                    if a.z == zoom + 1 {
                        assert(false);
                    }
                    let (tw, lw): (TileId, int) = choose|tw: TileId, lw: int|
                        needed.contains(tw) && tw.z == zoom && tile_in_world(tw) && 1 <= lw
                            <= max_up && lw <= tw.z && a == #[trigger] ancestor_at(tw, lw);
                    lemma_ancestor_in_world(tw, lw);
                    assert(a.z == zoom - lw);
                    assert(k - 1 == lw);
                    assert(cached.contains(a));
                    assert(1 <= k - 1 <= max_up && k - 1 <= t.z);
                    assert(!cached.contains(ancestor_at(t, k - 1)));
                    assert(false);
                }
            }
        }
    }
    assert forall|u: TileId| #[trigger]
        tiles_a.contains(u) && live_in(tiles_a, dirty_a, u) implies (needed.contains(u)
        || fb_a.contains(u)) by {
        if u != c {
            assert(live_in(tiles_b, dirty_b, u));
        }
    }
    assert forall|u: TileId| #[trigger] fb_a.contains(u) implies fallback_justified(
        u,
        needed,
        cached,
        base,
        zoom,
        max_up,
    ) by {
        if !fb_b.contains(u) {
            assert(u == c);
            assert(!base.contains(t));
        }
    }
    // live tiles only gain here: every cover survives
    assert forall|u: TileId|
        live_in(tiles_b, dirty_b, u) implies live_in(tiles_a, dirty_a, u) by {}
    assert forall|u: TileId|
        needed.contains(u) && !dirty0.contains(u) && tiles_a.contains(u) && #[trigger]
        dirty_a.contains(u) implies exists|a: TileId|
        #![trigger strict_ancestor(a, u)]
        fb_a.contains(a) && live_in(tiles_a, dirty_a, a) && strict_ancestor(a, u) by {
        assert(dirty_b.contains(u) && u != c);
        assert(tiles_b.contains(u));
        let a0 = choose|a0: TileId|
            fb_b.contains(a0) && live_in(tiles_b, dirty_b, a0) && #[trigger] strict_ancestor(
                a0,
                u,
            );
        assert(fb_a.contains(a0) && live_in(tiles_a, dirty_a, a0));
        assert(strict_ancestor(a0, u));
    }
    assert forall|k: int|
        0 <= k < done.len() && !dirty0.contains(#[trigger] done[k]) implies covered(
        done[k],
        tiles_a,
        dirty_a,
        fb_a,
        cached,
        zc,
        max_up,
    ) by {
        let t0 = done[k];
        assert(covered(t0, tiles_b, dirty_b, fb_b, cached, zc, max_up));
        if live_in(tiles_b, dirty_b, t0) {
            assert(live_in(tiles_a, dirty_a, t0));
        } else if exists|a: TileId|
            fb_b.contains(a) && live_in(tiles_b, dirty_b, a) && #[trigger] strict_ancestor(
                a,
                t0,
            ) {
            let a0 = choose|a0: TileId|
                fb_b.contains(a0) && live_in(tiles_b, dirty_b, a0) && #[trigger] strict_ancestor(
                    a0,
                    t0,
                );
            assert(fb_a.contains(a0) && live_in(tiles_a, dirty_a, a0));
            assert(strict_ancestor(a0, t0));
        } else {
            assert(no_cached_ancestor(t0, cached, max_up));
        }
    }
}

/// Walks cached ancestors (or children) in as stand-ins for missing
/// needed tiles, protecting better tiles from eviction, and closes the
/// pass: what to evict and what stays resident. Throughout, no two live
/// tiles ever cover the same screen area at different levels.
#[verifier::rlimit(100)]
#[verifier::loop_isolation(false)]
fn backfill_stand_ins(
    tiling: &Tiling,
    zoom: usize,
    needed: &Vec<TileId>,
    cached: &Vec<TileId>,
    max_up_level: u32,
    tiles_in: Vec<TileId>,
    dirty_in: Vec<TileId>,
    cancel: Vec<TileId>,
    promote: Vec<TileId>,
    request: Vec<TileId>,
) -> (plan: TilePlan)
    requires
        tiling.wf(),
        zoom < tiling.zoom_count(),
        max_up_level <= 15,
        distinct_tiles(needed@),
        distinct_tiles(cached@),
        distinct_tiles(tiles_in@),
        distinct_tiles(dirty_in@),
        forall|k: int|
            0 <= k < needed@.len() ==> (#[trigger] needed@[k]).z == zoom && tile_in_world(
                needed@[k],
            ),
        forall|u: TileId|
            tiles_in@.contains(u) && !needed@.contains(u) ==> #[trigger] dirty_in@.contains(u),
    ensures
        plan.cancel == cancel,
        plan.promote == promote,
        plan.request == request,
        plan.cached_seen@ == cached@,
        distinct_tiles(plan.fallback@),
        forall|t: TileId| plan.fallback@.contains(t) ==> cached@.contains(t),
        distinct_tiles(plan.resident@),
        distinct_tiles(plan.evict@),
        forall|t: TileId|
            plan.resident@.contains(t) <==> ((tiles_in@.contains(t) || plan.fallback@.contains(
                t,
            )) && !plan.evict@.contains(t)),
        forall|t: TileId|
            plan.evict@.contains(t) ==> (tiles_in@.contains(t) || plan.fallback@.contains(t)),
        forall|t: TileId|
            plan.evict@.contains(t) <==> ((tiles_in@.contains(t) || plan.fallback@.contains(
                t,
            )) && !plan.resident@.contains(t)),
        forall|u: TileId|
            #[trigger] plan.resident@.contains(u) ==> (needed@.contains(u) || (
            plan.fallback@.contains(u) && fallback_justified(
                u,
                needed@,
                cached@,
                tiles_in@,
                zoom as int,
                max_up_level as int,
            ))),
        forall|a: TileId, b: TileId|
            plan.resident@.contains(a) && plan.resident@.contains(b) ==> !strict_ancestor(a, b),
        forall|k: int|
            0 <= k < needed@.len() && !dirty_in@.contains(#[trigger] needed@[k]) ==> ({
                let t = needed@[k];
                ||| plan.resident@.contains(t)
                ||| exists|a: TileId|
                    #![trigger strict_ancestor(a, t)]
                    plan.fallback@.contains(a) && plan.resident@.contains(a)
                        && strict_ancestor(a, t)
                ||| no_cached_ancestor(t, cached@, max_up_level as int)
            }),
{
    let mut tiles = tiles_in;
    let mut dirty = dirty_in;
    let ghost tiles0 = tiles@;
    let ghost dirty0 = dirty@;
    let ghost zc = tiling.zoom_count();
    let mut fallback: Vec<TileId> = Vec::new();
    let mut idx: usize = 0;
    proof {
        vstd::arithmetic::power2::lemma2_to64();
        assert(marked_under_cover(needed@, dirty0, tiles@, dirty@, fallback@));
        assert(all_covered(
            needed@.subrange(0, 0),
            dirty0,
            tiles@,
            dirty@,
            fallback@,
            cached@,
            zc,
            max_up_level as int,
        ));
        assert(needed_wf(needed@, zoom as int)) by {
            assert forall|u: TileId| #[trigger]
                needed@.contains(u) implies u.z == zoom && tile_in_world(u) by {
                let k = choose|k: int| 0 <= k < needed@.len() && needed@[k] == u;
                assert(needed@[k].z == zoom && tile_in_world(needed@[k]));
            }
        }
        assert(no_live_ancestor_pair(tiles@, dirty@)) by {
            assert forall|a: TileId, b: TileId|
                live_in(tiles@, dirty@, a) && live_in(tiles@, dirty@, b) implies !(
            #[trigger] strict_ancestor(a, b)) by {
                if strict_ancestor(a, b) {
                    assert(needed@.contains(a) && needed@.contains(b));
                    assert(a.z == zoom && b.z == zoom);
                }
            }
        }
        assert(live_shape(tiles@, dirty@, fallback@, needed@));
        assert(fallback_shape(fallback@, needed@, cached@, tiles0, zoom as int,
            max_up_level as int));
    }
    while idx < needed.len()
        invariant
            idx <= needed@.len(),
            distinct_tiles(tiles@),
            distinct_tiles(dirty@),
            distinct_tiles(fallback@),
            tiles_cover_inv(tiles@, tiles0, fallback@),
            fb_cached_inv(fallback@, cached@),
            needed_wf(needed@, zoom as int),
            no_live_ancestor_pair(tiles@, dirty@),
            live_shape(tiles@, dirty@, fallback@, needed@),
            fallback_shape(
                fallback@,
                needed@,
                cached@,
                tiles0,
                zoom as int,
                max_up_level as int,
            ),
            all_covered(
                needed@.subrange(0, idx as int),
                dirty0,
                tiles@,
                dirty@,
                fallback@,
                cached@,
                zc,
                max_up_level as int,
            ),
            marked_under_cover(needed@, dirty0, tiles@, dirty@, fallback@),
        decreases needed@.len() - idx,
    {
        let t = needed[idx];
        proof {
            assert(needed@.contains(t)) by {
                assert(needed@[idx as int] == t);
            }
        }
        if !contains_tile(&tiles, &t) {
            let mut handled = false;
            let mut level: u32 = 1;
            while level <= max_up_level && !handled
                invariant
                    1 <= level <= max_up_level + 1,
                    distinct_tiles(tiles@),
                    distinct_tiles(dirty@),
                    distinct_tiles(fallback@),
                    tiles_cover_inv(tiles@, tiles0, fallback@),
                    fb_cached_inv(fallback@, cached@),
                    no_live_ancestor_pair(tiles@, dirty@),
                    live_shape(tiles@, dirty@, fallback@, needed@),
                    fallback_shape(
                        fallback@,
                        needed@,
                        cached@,
                        tiles0,
                        zoom as int,
                        max_up_level as int,
                    ),
                    all_covered(
                        needed@.subrange(0, idx as int),
                        dirty0,
                        tiles@,
                        dirty@,
                        fallback@,
                        cached@,
                        zc,
                        max_up_level as int,
                    ),
                    marked_under_cover(needed@, dirty0, tiles@, dirty@, fallback@),
                    handled ==> covered(
                        t,
                        tiles@,
                        dirty@,
                        fallback@,
                        cached@,
                        zc,
                        max_up_level as int,
                    ),
                    !handled ==> !tiles@.contains(t),
                    !handled ==> forall|l: int|
                        1 <= l < level && l <= t.z ==> !cached@.contains(
                            #[trigger] ancestor_at(t, l),
                        ),
                decreases max_up_level + 1 - level,
            {
                let parent_opt = tiling.roll_up_tile_id(&t, level);
                proof {
                    lemma_roll_is_ancestor(t, level, parent_opt);
                }
                match parent_opt {
                    Some(parent) => {
                        proof {
                            assert(level <= t.z);
                            assert(parent == ancestor_at(t, level as int));
                            lemma_ancestor_in_world(t, level as int);
                        }
                        if contains_tile(cached, &parent) {
                            let mut protected = false;
                            let ghost mut pw: TileId = t;
                            let mut up: u32 = level + 1;
                            while up <= max_up_level
                                invariant
                                    level + 1 <= up <= max_up_level + 1,
                                    !protected ==> forall|l: int|
                                        level + 1 <= l < up && l <= t.z ==> !live_in(
                                            tiles@,
                                            dirty@,
                                            #[trigger] ancestor_at(t, l),
                                        ),
                                    protected ==> (fallback@.contains(pw) && live_in(
                                        tiles@,
                                        dirty@,
                                        pw,
                                    ) && strict_ancestor(pw, t)),
                                decreases max_up_level + 1 - up,
                            {
                                let up_opt = tiling.roll_up_tile_id(&t, up);
                                proof {
                                    lemma_roll_is_ancestor(t, up, up_opt);
                                }
                                match up_opt {
                                    Some(up_id) => {
                                        if contains_tile(&tiles, &up_id) && !contains_tile(
                                            &dirty,
                                            &up_id,
                                        ) {
                                            proof {
                                                if !protected {
                                                    pw = up_id;
                                                    assert(up <= t.z);
                                                    assert(up_id == ancestor_at(
                                                        t,
                                                        up as int,
                                                    ));
                                                    assert(up_id.z == t.z - up);
                                                    assert(strict_ancestor(up_id, t));
                                                    assert(live_in(tiles@, dirty@, up_id));
                                                    assert(fallback@.contains(up_id)) by {
                                                        assert(needed@.contains(up_id)
                                                            || fallback@.contains(up_id));
                                                        if needed@.contains(up_id) {
                                                            assert(up_id.z == zoom);
                                                        }
                                                    }
                                                }
                                            }
                                            protected = true;
                                        }
                                    },
                                    None => {},
                                }
                                up = up + 1;
                            }
                            if !protected {
                                let ghost tiles_b = tiles@;
                                let ghost fb_b = fallback@;
                                let ghost dirty_b = dirty@;
                                proof {
                                    assert(forall|l: int|
                                        level + 1 <= l <= max_up_level && l <= t.z
                                            ==> !live_in(
                                            tiles_b,
                                            dirty_b,
                                            #[trigger] ancestor_at(t, l),
                                        ));
                                }
                                push_tile(&mut tiles, parent);
                                push_tile(&mut fallback, parent);
                                remove_tile(&mut dirty, &parent);
                                let ghost dirty_mid = dirty@;
                                proof {
                                    lemma_cover_inv_insert(
                                        tiles_b,
                                        fb_b,
                                        tiles@,
                                        fallback@,
                                        tiles0,
                                        parent,
                                    );
                                    assert(fb_cached_inv(fallback@, cached@)) by {
                                        assert forall|u: TileId| #[trigger]
                                            fallback@.contains(u) implies cached@.contains(
                                            u,
                                        ) by {
                                            if fb_b.contains(u) {
                                            } else {
                                                assert(u == parent);
                                            }
                                        }
                                    }
                                    assert(parent.z == t.z - level);
                                    assert(0 <= parent.x < pow2(parent.z as nat));
                                    assert(0 <= parent.y < pow2(parent.z as nat));
                                }
                                let mut cl: u32 = 1;
                                while cl <= level
                                    invariant
                                        1 <= cl <= level + 1,
                                        level <= t.z,
                                        distinct_tiles(tiles@),
                                        distinct_tiles(dirty@),
                                        distinct_tiles(fallback@),
                                        tiles_cover_inv(tiles@, tiles0, fallback@),
                                        fb_cached_inv(fallback@, cached@),
                                        forall|u: TileId|
                                            dirty_mid.contains(u)
                                                ==> #[trigger] dirty@.contains(u),
                                        !dirty@.contains(parent),
                                        forall|d: TileId|
                                            #![trigger strict_ancestor(parent, d)]
                                            strict_ancestor(parent, d) && d.z < parent.z + cl
                                                && d.x >= 0 && d.y >= 0 ==> dirty@.contains(
                                                d,
                                            ),
                                        forall|u: TileId|
                                            #[trigger] dirty@.contains(u) ==> (
                                            dirty_b.contains(u) || (strict_ancestor(
                                                parent,
                                                u,
                                            ) && u.z <= zoom)),
                                    decreases level + 1 - cl,
                                {
                                    proof {
                                        assert(pow2(cl as nat) <= pow2(level as nat)) by {
                                            if cl < level {
                                                vstd::arithmetic::power2::lemma_pow2_strictly_increases(
                                                    cl as nat,
                                                    level as nat,
                                                );
                                            }
                                        }
                                        vstd::arithmetic::power2::lemma_pow2_adds(
                                            parent.z as nat,
                                            cl as nat,
                                        );
                                        assert(pow2((parent.z + cl) as nat) <= pow2(
                                            zoom as nat,
                                        )) by {
                                            if parent.z + cl < zoom {
                                                vstd::arithmetic::power2::lemma_pow2_strictly_increases(
                                                    (parent.z + cl) as nat,
                                                    zoom as nat,
                                                );
                                            }
                                        }
                                        assert(pow2(zoom as nat) <= pow2(30)) by {
                                            if zoom < 30 {
                                                vstd::arithmetic::power2::lemma_pow2_strictly_increases(
                                                    zoom as nat,
                                                    30,
                                                );
                                            }
                                        }
                                        assert((parent.x as int) * (pow2(cl as nat) as int)
                                            + pow2(cl as nat) <= pow2((parent.z + cl) as nat)
                                            && (parent.x as int) * (pow2(cl as nat) as int)
                                            >= 0 && (parent.y as int) * (pow2(
                                            cl as nat,
                                        ) as int) + pow2(cl as nat) <= pow2(
                                            (parent.z + cl) as nat,
                                        ) && (parent.y as int) * (pow2(cl as nat) as int)
                                            >= 0) by (nonlinear_arith)
                                            requires
                                                0 <= parent.x < pow2(parent.z as nat),
                                                0 <= parent.y < pow2(parent.z as nat),
                                                pow2((parent.z + cl) as nat) == pow2(
                                                    parent.z as nat,
                                                ) * pow2(cl as nat),
                                                pow2(cl as nat) >= 1,
                                        ;
                                    }
                                    let covers = tiling.drill_down_tile_ids(&parent, cl);
                                    let ghost f: int = pow2(cl as nat) as int;
                                    let mut ci: usize = 0;
                                    while ci < covers.len()
                                        invariant
                                            ci <= covers@.len(),
                                            distinct_tiles(tiles@),
                                            distinct_tiles(dirty@),
                                            distinct_tiles(fallback@),
                                            tiles_cover_inv(tiles@, tiles0, fallback@),
                                            fb_cached_inv(fallback@, cached@),
                                            forall|u: TileId|
                                                dirty_mid.contains(u)
                                                    ==> #[trigger] dirty@.contains(u),
                                            !dirty@.contains(parent),
                                            forall|d: TileId|
                                                #![trigger strict_ancestor(parent, d)]
                                                strict_ancestor(parent, d) && d.z < parent.z
                                                    + cl && d.x >= 0 && d.y >= 0
                                                    ==> dirty@.contains(d),
                                            forall|j: int|
                                                0 <= j < ci ==> dirty@.contains(
                                                    #[trigger] covers@[j],
                                                ),
                                            forall|u: TileId|
                                                #[trigger] dirty@.contains(u) ==> (
                                                dirty_b.contains(u) || (strict_ancestor(
                                                    parent,
                                                    u,
                                                ) && u.z <= zoom)),
                                        decreases covers@.len() - ci,
                                    {
                                        let cover = covers[ci];
                                        let ghost dirty_p = dirty@;
                                        push_tile(&mut dirty, cover);
                                        proof {
                                            assert(cover.z == parent.z + cl);
                                            // the marked tile sits inside the stand-in's area
                                            assert(strict_ancestor(parent, cover)) by {
                                                let k: int = ci as int;
                                                assert(0 <= k / f && k / f < f && 0 <= k % f
                                                    && k % f < f) by {
                                                    vstd::arithmetic::div_mod::lemma_mod_division_less_than_divisor(
                                                        k,
                                                        f,
                                                    );
                                                    vstd::arithmetic::div_mod::lemma_div_pos_is_pos(
                                                        k,
                                                        f,
                                                    );
                                                    vstd::arithmetic::div_mod::lemma_multiply_divide_lt(
                                                        k,
                                                        f,
                                                        f,
                                                    );
                                                }
                                                assert(((parent.x as int) + 1) * f == (
                                                parent.x as int) * f + f && ((parent.y as int)
                                                    + 1) * f == (parent.y as int) * f + f)
                                                    by (nonlinear_arith);
                                                lemma_descendant_window(
                                                    parent,
                                                    cover,
                                                    cl as int,
                                                );
                                            }
                                            assert(cover.z <= zoom);
                                            assert forall|j: int|
                                                0 <= j < ci + 1 implies dirty@.contains(
                                                #[trigger] covers@[j],
                                            ) by {
                                                if j < ci {
                                                    assert(dirty_p.contains(covers@[j]));
                                                }
                                            }
                                        }
                                        ci = ci + 1;
                                    }
                                    proof {
                                        assert forall|d: TileId|
                                            strict_ancestor(parent, d) && d.z < parent.z + cl
                                                + 1 && d.x >= 0 && d.y >= 0 implies
                                            dirty@.contains(d) by {
                                            if d.z == parent.z + cl {
                                                lemma_descendant_window(
                                                    parent,
                                                    d,
                                                    cl as int,
                                                );
                                                let kx: int = d.x - (parent.x as int) * f;
                                                let ky: int = d.y - (parent.y as int) * f;
                                                let k: int = kx * f + ky;
                                                assert(((parent.x as int) + 1) * f == (
                                                parent.x as int) * f + f && ((parent.y as int)
                                                    + 1) * f == (parent.y as int) * f + f)
                                                    by (nonlinear_arith);
                                                assert(0 <= kx < f && 0 <= ky < f);
                                                assert(0 <= k && k < f * f && k / f == kx
                                                    && k % f == ky) by {
                                                    assert(0 <= kx * f + ky && kx * f + ky
                                                        < f * f) by (nonlinear_arith)
                                                        requires
                                                            0 <= kx < f,
                                                            0 <= ky < f,
                                                    ;
                                                    vstd::arithmetic::div_mod::lemma_fundamental_div_mod_converse(
                                                        k,
                                                        f,
                                                        kx,
                                                        ky,
                                                    );
                                                }
                                                assert(covers@[k] == d);
                                                assert(dirty@.contains(covers@[k]));
                                            }
                                        }
                                    }
                                    cl = cl + 1;
                                }
                                proof {
                                    assert forall|d: TileId|
                                        #[trigger] strict_ancestor(parent, d) && d.z <= zoom
                                            && d.x >= 0 && d.y >= 0 implies dirty@.contains(
                                        d,
                                    ) by {
                                        assert(d.z < parent.z + level + 1);
                                    }
                                    assert forall|u: TileId|
                                        u != parent && dirty_b.contains(u) implies
                                        #[trigger] dirty@.contains(u) by {
                                        assert(dirty_mid.contains(u));
                                    }
                                    assert forall|k: int|
                                        0 <= k < needed@.subrange(0, idx as int).len() implies
                                        needed@.contains(
                                        #[trigger] needed@.subrange(0, idx as int)[k],
                                    ) by {
                                        assert(needed@[k] == needed@.subrange(
                                            0,
                                            idx as int,
                                        )[k]);
                                    }
                                    lemma_parent_insert_keeps(
                                        tiles_b,
                                        dirty_b,
                                        fb_b,
                                        tiles@,
                                        dirty@,
                                        fallback@,
                                        needed@,
                                        cached@,
                                        tiles0,
                                        needed@.subrange(0, idx as int),
                                        dirty0,
                                        t,
                                        parent,
                                        level as int,
                                        zoom as int,
                                        zc,
                                        max_up_level as int,
                                    );
                                    assert(covered(
                                        t,
                                        tiles@,
                                        dirty@,
                                        fallback@,
                                        cached@,
                                        zc,
                                        max_up_level as int,
                                    )) by {
                                        assert(live_in(tiles@, dirty@, parent));
                                        assert(parent.z < t.z);
                                        assert(strict_ancestor(parent, t));
                                        assert(fallback@.contains(parent));
                                    }
                                }
                            }
                            proof {
                                if protected {
                                    assert(covered(
                                        t,
                                        tiles@,
                                        dirty@,
                                        fallback@,
                                        cached@,
                                        zc,
                                        max_up_level as int,
                                    )) by {
                                        assert(strict_ancestor(pw, t) && live_in(
                                            tiles@,
                                            dirty@,
                                            pw,
                                        ) && fallback@.contains(pw));
                                    }
                                }
                            }
                            handled = true;
                        } else {
                            proof {
                                assert(!cached@.contains(ancestor_at(t, level as int)));
                            }
                        }
                    },
                    None => {},
                }
                level = level + 1;
            }
            if !handled {
                proof {
                    assert(no_cached_ancestor(t, cached@, max_up_level as int));
                    assert(pow2(zoom as nat) <= pow2(30)) by {
                        if zoom < 30 {
                            vstd::arithmetic::power2::lemma_pow2_strictly_increases(
                                zoom as nat,
                                30,
                            );
                        }
                    }
                    vstd::arithmetic::power2::lemma_pow2_adds(zoom as nat, 1);
                    assert((t.x as int) * (pow2(1) as int) + pow2(1) <= pow2((zoom + 1) as nat)
                        && (t.x as int) * (pow2(1) as int) >= 0 && (t.y as int) * (pow2(
                        1,
                    ) as int) + pow2(1) <= pow2((zoom + 1) as nat) && (t.y as int) * (pow2(
                        1,
                    ) as int) >= 0) by (nonlinear_arith)
                        requires
                            0 <= t.x < pow2(zoom as nat),
                            0 <= t.y < pow2(zoom as nat),
                            pow2((zoom + 1) as nat) == pow2(zoom as nat) * pow2(1),
                            pow2(1) == 2,
                    ;
                    assert(pow2((zoom + 1) as nat) <= 0x8000_0000) by {
                        if zoom + 1 < 31 {
                            vstd::arithmetic::power2::lemma_pow2_strictly_increases(
                                (zoom + 1) as nat,
                                31,
                            );
                        }
                        vstd::arithmetic::power2::lemma2_to64_rest();
                    }
                }
                let children = tiling.drill_down_tile_ids(&t, 1);
                let mut ci: usize = 0;
                while ci < children.len()
                    invariant
                        ci <= children@.len(),
                        distinct_tiles(tiles@),
                        distinct_tiles(dirty@),
                        distinct_tiles(fallback@),
                        tiles_cover_inv(tiles@, tiles0, fallback@),
                        fb_cached_inv(fallback@, cached@),
                        no_live_ancestor_pair(tiles@, dirty@),
                        live_shape(tiles@, dirty@, fallback@, needed@),
                        fallback_shape(
                            fallback@,
                            needed@,
                            cached@,
                            tiles0,
                            zoom as int,
                            max_up_level as int,
                        ),
                        all_covered(
                            needed@.subrange(0, idx as int),
                            dirty0,
                            tiles@,
                            dirty@,
                            fallback@,
                            cached@,
                            zc,
                            max_up_level as int,
                        ),
                        marked_under_cover(needed@, dirty0, tiles@, dirty@, fallback@),
                        !tiles@.contains(t),
                    decreases children@.len() - ci,
                {
                    let ghost tiles_b = tiles@;
                    let ghost fb_b = fallback@;
                    let ghost dirty_b = dirty@;
                    proof {
                        assert(all_covered(
                            needed@.subrange(0, idx as int),
                            dirty0,
                            tiles_b,
                            dirty_b,
                            fb_b,
                            cached@,
                            zc,
                            max_up_level as int,
                        ));
                        assert(marked_under_cover(needed@, dirty0, tiles_b, dirty_b, fb_b));
                    }
                    let c = children[ci];
                    proof {
                        assert(c == children@[ci as int]);
                        assert(c.z == t.z + 1);
                        assert(pow2(1) == 2) by {
                            vstd::arithmetic::power2::lemma2_to64();
                        }
                        assert((t.x as int) * 2 <= c.x as int && (c.x as int) < (t.x as int)
                            * 2 + 2 && (t.y as int) * 2 <= c.y as int && (c.y as int) < (
                        t.y as int) * 2 + 2) by {
                            let k: int = ci as int;
                            assert(0 <= k / 2 < 2 && 0 <= k % 2 < 2) by {
                                vstd::arithmetic::div_mod::lemma_mod_division_less_than_divisor(
                                    k,
                                    2,
                                );
                                vstd::arithmetic::div_mod::lemma_div_pos_is_pos(k, 2);
                                vstd::arithmetic::div_mod::lemma_multiply_divide_lt(k, 2, 2);
                            }
                        }
                        assert(tile_in_world(c)) by {
                            assert((c.x as int) < pow2((zoom + 1) as nat) && (c.y as int)
                                < pow2((zoom + 1) as nat)) by (nonlinear_arith)
                                requires
                                    (c.x as int) < (t.x as int) * 2 + 2,
                                    (c.y as int) < (t.y as int) * 2 + 2,
                                    (t.x as int) < pow2(zoom as nat),
                                    (t.y as int) < pow2(zoom as nat),
                                    pow2((zoom + 1) as nat) == pow2(zoom as nat) * pow2(1),
                                    pow2(1) == 2,
                            ;
                        }
                        lemma_descendant_window(t, c, 1);
                        assert(ancestor_at(c, 1) == t);
                    }
                    if contains_tile(cached, &c) {
                        push_tile(&mut tiles, c);
                        push_tile(&mut fallback, c);
                        remove_tile(&mut dirty, &c);
                        proof {
                            lemma_cover_inv_insert(tiles_b, fb_b, tiles@, fallback@, tiles0, c);
                            assert(fb_cached_inv(fallback@, cached@)) by {
                                assert forall|u: TileId| #[trigger]
                                    fallback@.contains(u) implies cached@.contains(u) by {
                                    if fb_b.contains(u) {
                                    } else {
                                        assert(u == c);
                                    }
                                }
                            }
                            assert(forall|u: TileId|
                                tiles0.contains(u) ==> #[trigger] tiles_b.contains(u));
                            assert forall|k: int|
                                0 <= k < needed@.subrange(0, idx as int).len() implies
                                needed@.contains(
                                #[trigger] needed@.subrange(0, idx as int)[k],
                            ) by {
                                assert(needed@[k] == needed@.subrange(0, idx as int)[k]);
                            }
                            lemma_child_insert_keeps(
                                tiles_b,
                                dirty_b,
                                fb_b,
                                tiles@,
                                dirty@,
                                fallback@,
                                needed@,
                                cached@,
                                tiles0,
                                needed@.subrange(0, idx as int),
                                dirty0,
                                t,
                                c,
                                zoom as int,
                                zc,
                                max_up_level as int,
                            );
                            assert(!tiles@.contains(t)) by {
                                if tiles@.contains(t) {
                                    assert(tiles_b.contains(t) || t == c);
                                }
                            }
                        }
                    }
                    ci = ci + 1;
                }
                proof {
                    // nothing was there to walk in from above
                    assert(covered(t, tiles@, dirty@, fallback@, cached@, zc,
                        max_up_level as int));
                }
            }
            proof {
                assert(covered(t, tiles@, dirty@, fallback@, cached@, zc,
                    max_up_level as int));
            }
        } else {
            proof {
                // already attached: live, or marked during this pass and
                // then standing under a live stand-in
                assert(!dirty0.contains(t) ==> covered(t, tiles@, dirty@, fallback@, cached@,
                    zc, max_up_level as int)) by {
                    if !dirty0.contains(t) {
                        if dirty@.contains(t) {
                            assert(needed@.contains(t) && tiles@.contains(t));
                            let a0 = choose|a0: TileId|
                                fallback@.contains(a0) && live_in(tiles@, dirty@, a0)
                                    && #[trigger] strict_ancestor(a0, t);
                            assert(strict_ancestor(a0, t));
                        } else {
                            assert(live_in(tiles@, dirty@, t));
                        }
                    }
                }
            }
        }
        proof {
            assert forall|k: int|
                0 <= k < idx + 1 && !dirty0.contains(
                    #[trigger] needed@.subrange(0, idx as int + 1)[k],
                ) implies covered(
                needed@.subrange(0, idx as int + 1)[k],
                tiles@,
                dirty@,
                fallback@,
                cached@,
                zc,
                max_up_level as int,
            ) by {
                if k < idx {
                    assert(needed@.subrange(0, idx as int)[k] == needed@.subrange(
                        0,
                        idx as int + 1,
                    )[k]);
                } else {
                    assert(needed@.subrange(0, idx as int + 1)[k] == t);
                }
            }
        }
        idx = idx + 1;
    }
    proof {
        assert(needed@.subrange(0, needed@.len() as int) =~= needed@);
    }
    // close the pass: evict what is both attached and marked, keep the rest
    let mut evict: Vec<TileId> = Vec::new();
    let mut i6: usize = 0;
    while i6 < dirty.len()
        invariant
            i6 <= dirty@.len(),
            distinct_tiles(evict@),
            forall|u: TileId|
                evict@.contains(u) <==> (dirty@.subrange(0, i6 as int).contains(u)
                    && tiles@.contains(u)),
        decreases dirty@.len() - i6,
    {
        let u = dirty[i6];
        let ghost before = evict@;
        if contains_tile(&tiles, &u) {
            proof {
                assert(!evict@.contains(u)) by {
                    if evict@.contains(u) {
                        let k = choose|k: int|
                            0 <= k < i6 && #[trigger] dirty@.subrange(0, i6 as int)[k] == u;
                        assert(dirty@[k] == u && dirty@[i6 as int] == u);
                    }
                }
            }
            evict.push(u);
        }
        proof {
            assert forall|uu: TileId| #[trigger]
                evict@.contains(uu) implies (dirty@.subrange(0, i6 as int + 1).contains(uu)
                && tiles@.contains(uu)) by {
                if before.contains(uu) {
                    let k = choose|k: int|
                        0 <= k < i6 && #[trigger] dirty@.subrange(0, i6 as int)[k] == uu;
                    assert(dirty@.subrange(0, i6 as int + 1)[k] == uu);
                } else {
                    assert(uu == u);
                    assert(dirty@.subrange(0, i6 as int + 1)[i6 as int] == uu);
                }
            }
            assert forall|uu: TileId|
                (dirty@.subrange(0, i6 as int + 1).contains(uu) && tiles@.contains(
                    uu,
                )) implies #[trigger] evict@.contains(uu) by {
                let k = choose|k: int|
                    0 <= k < i6 + 1 && #[trigger] dirty@.subrange(0, i6 as int + 1)[k] == uu;
                if k < i6 {
                    assert(dirty@.subrange(0, i6 as int)[k] == uu);
                    assert(before.contains(uu));
                    let j = choose|j: int| 0 <= j < before.len() && before[j] == uu;
                    assert(evict@[j] == uu);
                } else {
                    assert(uu == u);
                    assert(evict@[evict@.len() - 1] == uu);
                }
            }
        }
        i6 = i6 + 1;
    }
    proof {
        assert(dirty@.subrange(0, dirty@.len() as int) =~= dirty@);
    }
    let mut resident: Vec<TileId> = Vec::new();
    let mut i7: usize = 0;
    while i7 < tiles.len()
        invariant
            i7 <= tiles@.len(),
            distinct_tiles(resident@),
            forall|u: TileId|
                resident@.contains(u) <==> (tiles@.subrange(0, i7 as int).contains(u)
                    && !dirty@.contains(u)),
        decreases tiles@.len() - i7,
    {
        let u = tiles[i7];
        let ghost before = resident@;
        if !contains_tile(&dirty, &u) {
            proof {
                assert(!resident@.contains(u)) by {
                    if resident@.contains(u) {
                        let k = choose|k: int|
                            0 <= k < i7 && #[trigger] tiles@.subrange(0, i7 as int)[k] == u;
                        assert(tiles@[k] == u && tiles@[i7 as int] == u);
                    }
                }
            }
            resident.push(u);
        }
        proof {
            assert forall|uu: TileId| #[trigger]
                resident@.contains(uu) implies (tiles@.subrange(0, i7 as int + 1).contains(uu)
                && !dirty@.contains(uu)) by {
                if before.contains(uu) {
                    let k = choose|k: int|
                        0 <= k < i7 && #[trigger] tiles@.subrange(0, i7 as int)[k] == uu;
                    assert(tiles@.subrange(0, i7 as int + 1)[k] == uu);
                } else {
                    assert(uu == u);
                    assert(tiles@.subrange(0, i7 as int + 1)[i7 as int] == uu);
                }
            }
            assert forall|uu: TileId|
                (tiles@.subrange(0, i7 as int + 1).contains(uu) && !dirty@.contains(
                    uu,
                )) implies #[trigger] resident@.contains(uu) by {
                let k = choose|k: int|
                    0 <= k < i7 + 1 && #[trigger] tiles@.subrange(0, i7 as int + 1)[k] == uu;
                if k < i7 {
                    assert(tiles@.subrange(0, i7 as int)[k] == uu);
                    assert(before.contains(uu));
                    let j = choose|j: int| 0 <= j < before.len() && before[j] == uu;
                    assert(resident@[j] == uu);
                } else {
                    assert(uu == u);
                    assert(resident@[resident@.len() - 1] == uu);
                }
            }
        }
        i7 = i7 + 1;
    }
    proof {
        assert(tiles@.subrange(0, tiles@.len() as int) =~= tiles@);
        assert(forall|u: TileId|
            #[trigger] evict@.contains(u) <==> (dirty@.contains(u) && tiles@.contains(u)));
        assert(forall|u: TileId|
            #[trigger] resident@.contains(u) <==> (tiles@.contains(u) && !dirty@.contains(u)));
        lemma_close_pass(
            needed@,
            cached@,
            tiles0,
            dirty0,
            tiles@,
            dirty@,
            fallback@,
            evict@,
            resident@,
            zoom as int,
            zc,
            max_up_level as int,
        );
        assert(dirty0 == dirty_in@);
        assert(zc == tiling.zoom_count());
    }
    let cached_seen = clone_tiles(cached);
    TilePlan { cancel, promote, request, fallback, evict, resident, cached_seen }
}

} // verus!
