//! A tiled layer: the per-layer state the redraw pass works on — the
//! resident tile payloads the renderer reads, the bounded persistent tile
//! cache behind the resample fallback, the outstanding requests and the
//! fetch queue — and the redraw pass itself.

use vstd::prelude::*;
use vstd::arithmetic::power2::pow2;

use crate::fetch::{FetchQueue, HttpRequest};
use crate::geom::{Coord, QuadCoords, in_coord_range};
use crate::resample::{TilePlan, contains_tile, distinct_tiles, resolve_tiles};
use crate::tiled::tile_ids_in_view;
use crate::tiling::{TileId, Tiling};
use crate::urls::format_tile_url;

verus! {

#[verifier::external_type_specification]
#[verifier::external_body]
#[verifier::reject_recursive_types(K)]
#[verifier::reject_recursive_types(V)]
#[verifier::reject_recursive_types(S)]
pub struct ExDashMap<K, V, S>(dashmap::DashMap<K, V, S>);

/// What a keyed payload map holds.
pub uninterp spec fn dashmap_entries(m: dashmap::DashMap<u128, Vec<u8>>) -> Map<u128, Seq<u8>>;

/// An empty payload map.
pub open spec fn no_payloads() -> Map<u128, Seq<u8>> {
    Map::empty()
}

/// Relies on DashMap::new: a new map is empty.
#[verifier::external_body]
fn dm_new() -> (r: dashmap::DashMap<u128, Vec<u8>>)
    ensures
        dashmap_entries(r) == no_payloads(),
{
    dashmap::DashMap::new()
}

/// Relies on DashMap::insert: binds the key to the value.
#[verifier::external_body]
fn dm_insert(m: &mut dashmap::DashMap<u128, Vec<u8>>, key: u128, value: Vec<u8>)
    ensures
        dashmap_entries(*final(m)) == dashmap_entries(*old(m)).insert(key, value@),
{
    m.insert(key, value);
}

/// Relies on DashMap::remove: unbinds the key.
#[verifier::external_body]
fn dm_remove(m: &mut dashmap::DashMap<u128, Vec<u8>>, key: &u128)
    ensures
        dashmap_entries(*final(m)) == dashmap_entries(*old(m)).remove(*key),
{
    m.remove(key);
}

/// Relies on DashMap::get: the value bound to the key, if any.
#[verifier::external_body]
fn dm_get(m: &dashmap::DashMap<u128, Vec<u8>>, key: &u128) -> (r: Option<Vec<u8>>)
    ensures
        match r {
            Some(v) => dashmap_entries(*m).dom().contains(*key) && v@ == dashmap_entries(*m)[
                *key
            ],
            None => !dashmap_entries(*m).dom().contains(*key),
        },
{
    match m.get(key) {
        Some(entry) => Some(entry.value().clone()),
        None => None,
    }
}

#[verifier::external_type_specification]
#[verifier::external_body]
#[verifier::reject_recursive_types(K)]
#[verifier::reject_recursive_types(V)]
#[verifier::reject_recursive_types(S)]
pub struct ExMokaCache<K, V, S>(moka::sync::Cache<K, V, S>);

/// What the bounded tile cache is known to hold: for each key, the value
/// last inserted under it. The cache may drop any entry at any step, so
/// contracts only ever shrink this map or rebind the inserted key.
pub uninterp spec fn cache_entries(c: moka::sync::Cache<u128, Vec<u8>>) -> Map<u128, Seq<u8>>;

/// Relies on moka::sync::Cache::new: a new cache is empty; `capacity`
/// bounds how many entries it will retain.
#[verifier::external_body]
fn cache_new(capacity: u64) -> (r: moka::sync::Cache<u128, Vec<u8>>)
    ensures
        cache_entries(r) == no_payloads(),
{
    moka::sync::Cache::new(capacity)
}

/// Relies on moka::sync::Cache::insert: binds the key to the value; the
/// cache may concurrently evict any entries, so afterwards it holds a
/// submap of the old entries plus the new binding.
#[verifier::external_body]
fn cache_insert(c: &mut moka::sync::Cache<u128, Vec<u8>>, key: u128, value: Vec<u8>)
    ensures
        forall|j: u128|
            #[trigger] cache_entries(*final(c)).dom().contains(j) ==> ((j == key && cache_entries(
                *final(c),
            )[j] == value@) || (j != key && cache_entries(*old(c)).dom().contains(j)
                && cache_entries(*final(c))[j] == cache_entries(*old(c))[j])),
{
    c.insert(key, value);
}

/// Relies on moka::sync::Cache::get: `None`, or the value bound to the
/// key; pending evictions may run, so the entries can only shrink.
#[verifier::external_body]
fn cache_get(c: &mut moka::sync::Cache<u128, Vec<u8>>, key: &u128) -> (r: Option<Vec<u8>>)
    ensures
        forall|j: u128|
            #[trigger] cache_entries(*final(c)).dom().contains(j) ==> cache_entries(
                *old(c),
            ).dom().contains(j) && cache_entries(*final(c))[j] == cache_entries(*old(c))[j],
        match r {
            Some(v) => cache_entries(*old(c)).dom().contains(*key) && v@ == cache_entries(
                *old(c),
            )[*key],
            None => true,
        },
{
    c.get(key)
}

/// One tile address as a 128-bit map key: level, column and row packed
/// into separate digit positions.
pub open spec fn pack_tile(t: TileId) -> u128 {
    ((t.z as u128) * 0x1_0000_0000_0000_0000 + ((t.x as u32) as u128) * 0x1_0000_0000 + ((
    t.y as u32) as u128)) as u128
}

fn pack_tile_exec(t: &TileId) -> (r: u128)
    ensures
        r == pack_tile(*t),
{
    proof {
        assert((t.z as int) * 0x1_0000_0000_0000_0000 + ((t.x as u32) as int) * 0x1_0000_0000
            + ((t.y as u32) as int) <= 0xFFFF_FFFF_FFFF_FFFFi128 * 0x1_0000_0000_0000_0000
            + 0xFFFF_FFFFi128 * 0x1_0000_0000 + 0xFFFF_FFFFi128) by (nonlinear_arith)
            requires
                0 <= t.z as int <= 0xFFFF_FFFF_FFFF_FFFFi128,
                0 <= (t.x as u32) as int <= 0xFFFF_FFFFi128,
                0 <= (t.y as u32) as int <= 0xFFFF_FFFFi128,
        ;
    }
    (t.z as u128) * 0x1_0000_0000_0000_0000 + ((t.x as u32) as u128) * 0x1_0000_0000 + ((
    t.y as u32) as u128)
}

/// Whether `rq` is the GET request this layer issues for tile `t`: the
/// templated URL and the layer's headers.
pub open spec fn is_tile_request(
    rq: HttpRequest<TileId>,
    t: TileId,
    template: Seq<char>,
    subdomains: Option<Vec<String>>,
    headers: Seq<(String, String)>,
) -> bool {
    match rq {
        HttpRequest::Get { id, url, headers: h } => {
            &&& id == t
            &&& url@ == crate::urls::spec_format_tile_url(
                template,
                t.z as int,
                t.x as int,
                t.y as int,
                crate::urls::subdomains_view(subdomains),
            )
            &&& h@ == headers
        },
    }
}

/// Whether `key` is the packed form of some member of `s`.
pub open spec fn packed_in(s: Seq<TileId>, key: u128) -> bool {
    exists|k: int| 0 <= k < s.len() && pack_tile(#[trigger] s[k]) == key
}

/// Packing is one to one: distinct addresses get distinct keys.
pub proof fn lemma_pack_injective(a: TileId, b: TileId)
    requires
        pack_tile(a) == pack_tile(b),
    ensures
        a == b,
{
    let ax = (a.x as u32) as int;
    let ay = (a.y as u32) as int;
    let bx = (b.x as u32) as int;
    let by = (b.y as u32) as int;
    let pa: int = (a.z as int) * 0x1_0000_0000_0000_0000 + ax * 0x1_0000_0000 + ay;
    let pb: int = (b.z as int) * 0x1_0000_0000_0000_0000 + bx * 0x1_0000_0000 + by;
    assert(pa == pb) by (nonlinear_arith)
        requires
            pack_tile(a) == pack_tile(b),
            pa == (a.z as int) * 0x1_0000_0000_0000_0000 + ax * 0x1_0000_0000 + ay,
            pb == (b.z as int) * 0x1_0000_0000_0000_0000 + bx * 0x1_0000_0000 + by,
            0 <= a.z as int <= 0xFFFF_FFFF_FFFF_FFFFi128,
            0 <= b.z as int <= 0xFFFF_FFFF_FFFF_FFFFi128,
            0 <= ax <= 0xFFFF_FFFFi128,
            0 <= ay <= 0xFFFF_FFFFi128,
            0 <= bx <= 0xFFFF_FFFFi128,
            0 <= by <= 0xFFFF_FFFFi128,
            pack_tile(a) == pa as u128,
            pack_tile(b) == pb as u128,
    ;
    assert(a.z == b.z && ax == bx && ay == by) by (nonlinear_arith)
        requires
            pa == pb,
            pa == (a.z as int) * 0x1_0000_0000_0000_0000 + ax * 0x1_0000_0000 + ay,
            pb == (b.z as int) * 0x1_0000_0000_0000_0000 + bx * 0x1_0000_0000 + by,
            0 <= ax < 0x1_0000_0000,
            0 <= ay < 0x1_0000_0000,
            0 <= bx < 0x1_0000_0000,
            0 <= by < 0x1_0000_0000,
            0 <= a.z as int,
            0 <= b.z as int,
    ;
    let xa: i32 = a.x;
    let xb: i32 = b.x;
    let ya: i32 = a.y;
    let yb: i32 = b.y;
    assert(xa as u32 == xb as u32 && ya as u32 == yb as u32);
    assert(xa == xb) by (bit_vector)
        requires
            xa as u32 == xb as u32,
    ;
    assert(ya == yb) by (bit_vector)
        requires
            ya as u32 == yb as u32,
    ;
}

/// How a tiled layer is configured: cache capacity, fetch concurrency,
/// extra request headers, resample depth, URL subdomains and draw order.
pub struct TiledLayerOptions {
    pub cache_size: u64,
    pub concurrent: usize,
    pub headers: Vec<(String, String)>,
    pub max_up_scale_level: u32,
    pub url_subdomains: Option<Vec<String>>,
}

impl TiledLayerOptions {
    /// The stock options: a 512-entry cache, eight workers, resampling up
    /// to five levels up.
    pub fn default_options() -> (r: TiledLayerOptions)
        ensures
            r.cache_size == 512,
            r.concurrent == 8,
            r.max_up_scale_level == 5,
            r.headers@.len() == 0,
            r.url_subdomains is None,
    {
        TiledLayerOptions {
            cache_size: 512,
            concurrent: 8,
            headers: Vec::new(),
            max_up_scale_level: 5,
            url_subdomains: None,
        }
    }

    pub fn with_cache_size(self, v: u64) -> (r: TiledLayerOptions)
        ensures
            r == (TiledLayerOptions { cache_size: v, ..self }),
    {
        TiledLayerOptions { cache_size: v, ..self }
    }

    pub fn with_concurrent(self, v: usize) -> (r: TiledLayerOptions)
        ensures
            r == (TiledLayerOptions { concurrent: v, ..self }),
    {
        TiledLayerOptions { concurrent: v, ..self }
    }

    pub fn with_headers(self, v: Vec<(String, String)>) -> (r: TiledLayerOptions)
        ensures
            r == (TiledLayerOptions { headers: v, ..self }),
    {
        TiledLayerOptions { headers: v, ..self }
    }

    pub fn with_max_up_scale_level(self, v: u32) -> (r: TiledLayerOptions)
        ensures
            r == (TiledLayerOptions { max_up_scale_level: v, ..self }),
    {
        TiledLayerOptions { max_up_scale_level: v, ..self }
    }

    pub fn with_url_subdomains(self, v: Vec<String>) -> (r: TiledLayerOptions)
        ensures
            r == (TiledLayerOptions { url_subdomains: Some(v), ..self }),
    {
        TiledLayerOptions { url_subdomains: Some(v), ..self }
    }
}

/// One tiled layer: its URL template and options, the cancellable fetch
/// queue and the set of outstanding requests, the bounded persistent tile
/// cache, the resident payload map the renderer reads, and the resident
/// addresses.
///
/// The outstanding and resident address sets are plain vectors with a
/// no-duplicates invariant: the redraw pass is single-threaded in this
/// core, and the pass's contracts need ordered, exactly-characterised
/// membership; only the payload map and the bounded cache, which an
/// embedding may share with a renderer, sit behind concurrent outside
/// collections.
pub struct TiledLayer {
    pub url_template: String,
    pub options: TiledLayerOptions,
    pub fetch_queue: FetchQueue,
    pub requesting: Vec<TileId>,
    pub resident_ids: Vec<TileId>,
    pub tiles: dashmap::DashMap<u128, Vec<u8>>,
    pub tiles_cache: moka::sync::Cache<u128, Vec<u8>>,
}

impl TiledLayer {
    /// Well-formedness: no duplicate bookkeeping entries, a sound fetch
    /// queue, and the payload map keyed by exactly the resident addresses.
    pub open spec fn wf(&self) -> bool {
        &&& self.fetch_queue.wf()
        &&& distinct_tiles(self.requesting@)
        &&& distinct_tiles(self.resident_ids@)
        &&& self.options.max_up_scale_level <= 15
        &&& forall|k: int|
            0 <= k < self.fetch_queue@.len() ==> self.requesting@.contains(
                (#[trigger] self.fetch_queue@[k]).spec_id(),
            )
        &&& forall|t: TileId|
            #![trigger self.resident_ids@.contains(t)]
            self.resident_ids@.contains(t) ==> dashmap_entries(self.tiles).dom().contains(
                pack_tile(t),
            )
        &&& forall|key: u128|
            #![trigger dashmap_entries(self.tiles).dom().contains(key)]
            dashmap_entries(self.tiles).dom().contains(key) ==> exists|t: TileId|
                self.resident_ids@.contains(t) && pack_tile(t) == key
    }

    /// A fresh layer with nothing resident, nothing queued.
    pub fn new(url_template: String, options: TiledLayerOptions) -> (r: TiledLayer)
        requires
            options.max_up_scale_level <= 15,
        ensures
            r.wf(),
            r.resident_ids@.len() == 0,
            r.requesting@.len() == 0,
            r.fetch_queue@.len() == 0,
            r.url_template == url_template,
    {
        let cache_size = options.cache_size;
        TiledLayer {
            url_template,
            options,
            fetch_queue: FetchQueue::new(),
            requesting: Vec::new(),
            resident_ids: Vec::new(),
            tiles: dm_new(),
            tiles_cache: cache_new(cache_size),
        }
    }

    /// Takes the next request to put on the wire: most recently submitted
    /// first. The address stays in the outstanding set until its response
    /// arrives or a later pass cancels it.
    pub fn pop_next_request(&mut self) -> (r: Option<HttpRequest<TileId>>)
        requires
            old(self).wf(),
        ensures
            final(self).wf(),
            old(self).fetch_queue@.len() == 0 ==> r is None,
            old(self).fetch_queue@.len() > 0 ==> r == Some(old(self).fetch_queue@.last())
                && final(self).fetch_queue@ == old(self).fetch_queue@.drop_last(),
            final(self).resident_ids == old(self).resident_ids,
            final(self).requesting == old(self).requesting,
    {
        self.fetch_queue.pop_next()
    }

    /// Accepts a fetched-and-decoded tile payload: stores it in the
    /// persistent cache and clears the outstanding mark (and any queued
    /// request for the same address). A response for a tile no longer
    /// wanted is still cached, as the next pass may ask for it again.
    pub fn on_tile_loaded(&mut self, id: &TileId, payload: Vec<u8>)
        requires
            old(self).wf(),
        ensures
            final(self).wf(),
            final(self).resident_ids == old(self).resident_ids,
            final(self).tiles == old(self).tiles,
            forall|t: TileId|
                final(self).requesting@.contains(t) <==> (old(self).requesting@.contains(t) && t
                    != *id),
            final(self).fetch_queue@ == old(self).fetch_queue@.filter(
                crate::fetch::keeps_key(*id),
            ),
            forall|j: u128|
                #[trigger] cache_entries(final(self).tiles_cache).dom().contains(j) ==> ((j
                    == pack_tile(*id) && cache_entries(final(self).tiles_cache)[j] == payload@)
                    || (j != pack_tile(*id) && cache_entries(old(self).tiles_cache).dom().contains(
                    j,
                ) && cache_entries(final(self).tiles_cache)[j] == cache_entries(
                    old(self).tiles_cache,
                )[j])),
    {
        self.fetch_queue.cancel(id);
        remove_requesting(&mut self.requesting, id);
        let key = pack_tile_exec(id);
        cache_insert(&mut self.tiles_cache, key, payload);
        proof {
            assert forall|k: int|
                0 <= k < self.fetch_queue@.len() implies self.requesting@.contains(
                (#[trigger] self.fetch_queue@[k]).spec_id(),
            ) by {
                let rq = self.fetch_queue@[k];
                assert(self.fetch_queue@.contains(rq));
                crate::fetch::lemma_filter_keeps_members(
                    old(self).fetch_queue@,
                    crate::fetch::keeps_key(*id),
                    rq,
                );
                let k0 = choose|k0: int|
                    0 <= k0 < old(self).fetch_queue@.len() && old(self).fetch_queue@[k0] == rq;
                assert(old(self).requesting@.contains(rq.spec_id()));
                assert(rq.spec_id() != *id) by {
                    old(self).fetch_queue@.lemma_filter_pred(crate::fetch::keeps_key(*id), k);
                }
            }
        }
    }

    /// Records that a tile's fetch will never deliver (a network or decode
    /// failure): clears the outstanding mark, so a later pass asks for the
    /// tile again while it stays needed. Nothing else changes.
    pub fn on_tile_failed(&mut self, id: &TileId)
        requires
            old(self).wf(),
        ensures
            final(self).wf(),
            final(self).resident_ids == old(self).resident_ids,
            final(self).tiles == old(self).tiles,
            final(self).tiles_cache == old(self).tiles_cache,
            forall|t: TileId|
                final(self).requesting@.contains(t) <==> (old(self).requesting@.contains(t) && t
                    != *id),
            final(self).fetch_queue@ == old(self).fetch_queue@.filter(
                crate::fetch::keeps_key(*id),
            ),
    {
        self.fetch_queue.cancel(id);
        remove_requesting(&mut self.requesting, id);
        proof {
            assert forall|k: int|
                0 <= k < self.fetch_queue@.len() implies self.requesting@.contains(
                (#[trigger] self.fetch_queue@[k]).spec_id(),
            ) by {
                let rq = self.fetch_queue@[k];
                assert(self.fetch_queue@.contains(rq));
                crate::fetch::lemma_filter_keeps_members(
                    old(self).fetch_queue@,
                    crate::fetch::keeps_key(*id),
                    rq,
                );
                let k0 = choose|k0: int|
                    0 <= k0 < old(self).fetch_queue@.len() && old(self).fetch_queue@[k0] == rq;
                assert(old(self).requesting@.contains(rq.spec_id()));
                assert(rq.spec_id() != *id) by {
                    old(self).fetch_queue@.lemma_filter_pred(crate::fetch::keeps_key(*id), k);
                }
            }
        }
    }

    /// The payload of a resident tile, for the renderer.
    pub fn resident_payload(&self, id: &TileId) -> (r: Option<Vec<u8>>)
        requires
            self.wf(),
        ensures
            self.resident_ids@.contains(*id) ==> r is Some,
    {
        let key = pack_tile_exec(id);
        dm_get(&self.tiles, &key)
    }
}

/// Takes one address out of the outstanding set.
fn remove_requesting(v: &mut Vec<TileId>, t: &TileId)
    requires
        distinct_tiles(old(v)@),
    ensures
        distinct_tiles(final(v)@),
        forall|u: TileId| final(v)@.contains(u) <==> (old(v)@.contains(u) && u != *t),
{
    crate::resample::remove_tile(v, t)
}

impl TiledLayer {
    /// One redraw pass: recomputes the visible tiles for the view, cancels
    /// requests that fell out of view, promotes cached tiles and resample
    /// stand-ins into the payload map, enqueues what is missing (nearest
    /// the centre first) and evicts what no longer belongs. Returns the
    /// visible set and the applied plan, whose `evict`, `promote` and
    /// `fallback` lists tell the renderer which draw items to detach and
    /// attach.
    #[verifier::rlimit(100)]
    #[verifier::loop_isolation(false)]
    pub fn update(
        &mut self,
        tiling: &Tiling,
        bounds: &QuadCoords,
        zoom: usize,
        center: &Coord,
    ) -> (r: (Vec<TileId>, TilePlan))
        requires
            old(self).wf(),
            tiling.wf(),
            zoom < tiling.zoom_count(),
            in_coord_range(bounds.lt),
            in_coord_range(bounds.lb),
            in_coord_range(bounds.rt),
            in_coord_range(bounds.rb),
        ensures
            final(self).wf(),
            forall|t: TileId|
                r.0@.contains(t) <==> #[trigger] crate::tiled::tile_visible(
                    *tiling,
                    *bounds,
                    zoom as int,
                    t,
                ),
            forall|t: TileId|
                r.1.cancel@.contains(t) <==> (old(self).requesting@.contains(t)
                    && !r.0@.contains(t)),
            forall|t: TileId|
                #[trigger] r.1.request@.contains(t) ==> (r.0@.contains(t) && !old(
                    self,
                ).resident_ids@.contains(t) && !old(self).requesting@.contains(t)),
            forall|t: TileId|
                #[trigger] r.1.promote@.contains(t) ==> (r.0@.contains(t) && !old(
                    self,
                ).resident_ids@.contains(t)),
            final(self).resident_ids@ == r.1.resident@,
            forall|a: TileId, b: TileId|
                final(self).resident_ids@.contains(a) && final(self).resident_ids@.contains(b)
                    ==> !crate::resample::strict_ancestor(a, b),
            // every visible tile ends the pass resident, under a resident
            // stand-in, or with nothing cached above it to walk in
            forall|k: int|
                0 <= k < r.0@.len() ==> ({
                    let t = #[trigger] r.0@[k];
                    ||| final(self).resident_ids@.contains(t)
                    ||| exists|a: TileId|
                        #![trigger crate::resample::strict_ancestor(a, t)]
                        r.1.fallback@.contains(a) && final(self).resident_ids@.contains(a)
                            && crate::resample::strict_ancestor(a, t)
                    ||| crate::resample::no_cached_ancestor(
                        t,
                        r.1.cached_seen@,
                        old(self).options.max_up_scale_level as int,
                    )
                }),
            // the fetch queue after the pass: the old requests whose keys
            // were not cancelled, in order, then one GET per missing tile
            // with the templated URL and the layer's headers, enqueued
            // farthest-from-centre first so the recency-ordered queue
            // serves the nearest tile next
            old(self).fetch_queue.spec_next_serial() + r.1.request@.len() <= u64::MAX ==> ({
                let kept_q = old(self).fetch_queue@.filter(
                    crate::fetch::keeps_keys(r.1.cancel@),
                );
                let n0 = kept_q.len() as int;
                let nr = r.1.request@.len() as int;
                &&& final(self).fetch_queue@.len() == n0 + nr
                &&& final(self).fetch_queue@.subrange(0, n0) == kept_q
                &&& forall|j: int|
                    0 <= j < nr ==> is_tile_request(
                        #[trigger] final(self).fetch_queue@[n0 + j],
                        r.1.request@[nr - 1 - j],
                        old(self).url_template@,
                        old(self).options.url_subdomains,
                        old(self).options.headers@,
                    )
            }),
            forall|t: TileId|
                final(self).requesting@.contains(t) <==> ((old(self).requesting@.contains(t)
                    && r.0@.contains(t)) || r.1.request@.contains(t)),
    {
        let needed = tile_ids_in_view(tiling, bounds, zoom);
        proof {
            assert forall|k: int|
                0 <= k < needed@.len() implies (#[trigger] needed@[k]).z == zoom
                && crate::resample::tile_in_world(needed@[k]) by {
                assert(needed@.contains(needed@[k]));
                assert(crate::tiled::tile_visible(*tiling, *bounds, zoom as int, needed@[k]));
                assert(tiling.clamped_zoom(zoom as int) == zoom as int);
            }
        }
        let center_tile = tiling.get_tile_id(zoom, center);
        // resident tiles whose box left the view; a needed tile's box
        // meets the view by construction, so none of these is needed
        let mut stale: Vec<TileId> = Vec::new();
        let mut i: usize = 0;
        while i < self.resident_ids.len()
            invariant
                i <= self.resident_ids@.len(),
                distinct_tiles(stale@),
                forall|u: TileId| #[trigger] stale@.contains(u) ==> !needed@.contains(u),
            decreases self.resident_ids@.len() - i,
        {
            let t = self.resident_ids[i];
            let ghost stale_b = stale@;
            let keep = match tiling.get_tile_bbox(&t) {
                Some(bbox) => {
                    if bbox.xmin >= -0x3FFF_FFFF_FFFF_FFFFi64 && bbox.xmin
                        <= 0x3FFF_FFFF_FFFF_FFFFi64 && bbox.xmax >= -0x3FFF_FFFF_FFFF_FFFFi64
                        && bbox.xmax <= 0x3FFF_FFFF_FFFF_FFFFi64 && bbox.ymin
                        >= -0x3FFF_FFFF_FFFF_FFFFi64 && bbox.ymin <= 0x3FFF_FFFF_FFFF_FFFFi64
                        && bbox.ymax >= -0x3FFF_FFFF_FFFF_FFFFi64 && bbox.ymax
                        <= 0x3FFF_FFFF_FFFF_FFFFi64 {
                        crate::geom::intersects(bounds, &bbox)
                    } else {
                        false
                    }
                },
                None => false,
            };
            if !keep {
                proof {
                    assert(!needed@.contains(t)) by {
                        if needed@.contains(t) {
                            assert(crate::tiled::tile_visible(*tiling, *bounds, zoom as int, t));
                            assert(t.z == zoom && crate::resample::tile_in_world(t));
                            assert(tiling.clamped_zoom(zoom as int) == zoom as int);
                            crate::tiled::lemma_world_tile_bbox(*tiling, t);
                            assert(crate::geom::quad_intersects_bbox(
                                *bounds,
                                crate::tiled::spec_tile_bbox(*tiling, t),
                            ));
                        }
                    }
                }
                push_unique_tiles(&mut stale, t);
                proof {
                    assert forall|u: TileId| #[trigger]
                        stale@.contains(u) implies !needed@.contains(u) by {
                        if !stale_b.contains(u) {
                            assert(u == t);
                        }
                    }
                }
            }
            i = i + 1;
        }
        // observe what the persistent cache holds around the needed tiles
        let mut cached_ids: Vec<TileId> = Vec::new();
        let mut payloads: Vec<(TileId, Vec<u8>)> = Vec::new();
        let mut i2: usize = 0;
        while i2 < needed.len()
            invariant
                i2 <= needed@.len(),
                distinct_tiles(cached_ids@),
                tiling.wf(),
                zoom < tiling.zoom_count(),
                self.options.max_up_scale_level <= 15,
                forall|k: int|
                    0 <= k < needed@.len() ==> (#[trigger] needed@[k]).z == zoom
                        && crate::resample::tile_in_world(needed@[k]),
                self.url_template == old(self).url_template,
                self.fetch_queue == old(self).fetch_queue,
                self.requesting == old(self).requesting,
                self.resident_ids == old(self).resident_ids,
                self.tiles == old(self).tiles,
                self.options == old(self).options,
            decreases needed@.len() - i2,
        {
            let t = needed[i2];
            proof {
                assert(needed@[i2 as int] == t);
            }
            self.observe_cached(&t, &mut cached_ids, &mut payloads);
            let mut level: u32 = 1;
            while level <= self.options.max_up_scale_level
                invariant
                    1 <= level <= self.options.max_up_scale_level + 1,
                    self.options.max_up_scale_level <= 15,
                    distinct_tiles(cached_ids@),
                    self.url_template == old(self).url_template,
                    self.fetch_queue == old(self).fetch_queue,
                    self.requesting == old(self).requesting,
                    self.resident_ids == old(self).resident_ids,
                    self.tiles == old(self).tiles,
                    self.options == old(self).options,
                decreases self.options.max_up_scale_level + 1 - level,
            {
                match tiling.roll_up_tile_id(&t, level) {
                    Some(parent) => {
                        self.observe_cached(&parent, &mut cached_ids, &mut payloads);
                    },
                    None => {},
                }
                level = level + 1;
            }
            proof {
                assert(t.z == zoom && crate::resample::tile_in_world(t));
                assert(pow2(zoom as nat) <= pow2(30)) by {
                    if zoom < 30 {
                        vstd::arithmetic::power2::lemma_pow2_strictly_increases(zoom as nat, 30);
                    }
                }
                vstd::arithmetic::power2::lemma2_to64();
                vstd::arithmetic::power2::lemma2_to64_rest();
                vstd::arithmetic::power2::lemma_pow2_adds(zoom as nat, 1);
                assert((t.x as int) * (pow2(1) as int) + pow2(1) <= pow2((zoom + 1) as nat)
                    && (t.x as int) * (pow2(1) as int) >= 0 && (t.y as int) * (pow2(1) as int)
                    + pow2(1) <= pow2((zoom + 1) as nat) && (t.y as int) * (pow2(1) as int)
                    >= 0) by (nonlinear_arith)
                    requires
                        0 <= t.x < pow2(zoom as nat),
                        0 <= t.y < pow2(zoom as nat),
                        pow2((zoom + 1) as nat) == pow2(zoom as nat) * pow2(1),
                        pow2(1) == 2,
                ;
                assert(pow2((zoom + 1) as nat) <= 0x8000_0000) by {
                    if zoom + 1 < 31 {
                        vstd::arithmetic::power2::lemma_pow2_strictly_increases(
                            (zoom + 1) as nat,
                            31,
                        );
                    }
                }
            }
            let children = tiling.drill_down_tile_ids(&t, 1);
            let mut ci: usize = 0;
            while ci < children.len()
                invariant
                    ci <= children@.len(),
                    distinct_tiles(cached_ids@),
                    self.url_template == old(self).url_template,
                    self.fetch_queue == old(self).fetch_queue,
                    self.requesting == old(self).requesting,
                    self.resident_ids == old(self).resident_ids,
                    self.tiles == old(self).tiles,
                    self.options == old(self).options,
                decreases children@.len() - ci,
            {
                let c = children[ci];
                self.observe_cached(&c, &mut cached_ids, &mut payloads);
                ci = ci + 1;
            }
            i2 = i2 + 1;
        }
        // decide the pass
        let plan = resolve_tiles(
            tiling,
            zoom,
            &needed,
            &center_tile,
            &self.resident_ids,
            &self.requesting,
            &cached_ids,
            &stale,
            self.options.max_up_scale_level,
        );
        // cancel what fell out of view
        let ghost q0 = self.fetch_queue@;
        proof {
            crate::fetch::lemma_keeps_all(q0, plan.cancel@.subrange(0, 0));
        }
        let mut i3: usize = 0;
        while i3 < plan.cancel.len()
            invariant
                i3 <= plan.cancel@.len(),
                self.fetch_queue.wf(),
                self.fetch_queue@ == q0.filter(
                    crate::fetch::keeps_keys(plan.cancel@.subrange(0, i3 as int)),
                ),
                self.fetch_queue.spec_next_serial() == old(self).fetch_queue.spec_next_serial(),
                self.tiles == old(self).tiles,
                self.resident_ids == old(self).resident_ids,
                self.requesting == old(self).requesting,
                self.options == old(self).options,
                self.url_template == old(self).url_template,
            decreases plan.cancel@.len() - i3,
        {
            let ghost pre = plan.cancel@.subrange(0, i3 as int);
            self.fetch_queue.cancel(&plan.cancel[i3]);
            proof {
                crate::fetch::lemma_cancel_step(q0, pre, plan.cancel@[i3 as int]);
                assert(pre.push(plan.cancel@[i3 as int]) =~= plan.cancel@.subrange(
                    0,
                    i3 as int + 1,
                ));
            }
            i3 = i3 + 1;
        }
        let ghost qbase = self.fetch_queue@;
        proof {
            assert(plan.cancel@.subrange(0, plan.cancel@.len() as int) =~= plan.cancel@);
            assert(qbase == q0.filter(crate::fetch::keeps_keys(plan.cancel@)));
            // every surviving queued request's key is still outstanding
            assert forall|k: int|
                0 <= k < qbase.len() implies old(self).requesting@.contains(
                (#[trigger] qbase[k]).spec_id(),
            ) && !plan.cancel@.contains(qbase[k].spec_id()) by {
                let rq = qbase[k];
                assert(qbase.contains(rq));
                crate::fetch::lemma_filter_keeps_members(
                    q0,
                    crate::fetch::keeps_keys(plan.cancel@),
                    rq,
                );
                let k0 = choose|k0: int| 0 <= k0 < q0.len() && q0[k0] == rq;
                assert(old(self).requesting@.contains(rq.spec_id()));
                assert(q0.filter(crate::fetch::keeps_keys(plan.cancel@))[k] == rq);
                q0.lemma_filter_pred(crate::fetch::keeps_keys(plan.cancel@), k);
            }
        }
        // the requests still outstanding, plus the new ones
        let mut new_requesting: Vec<TileId> = Vec::new();
        let mut i4: usize = 0;
        while i4 < self.requesting.len()
            invariant
                i4 <= self.requesting@.len(),
                distinct_tiles(self.requesting@),
                distinct_tiles(new_requesting@),
                forall|t: TileId|
                    new_requesting@.contains(t) <==> (self.requesting@.subrange(
                        0,
                        i4 as int,
                    ).contains(t) && needed@.contains(t)),
            decreases self.requesting@.len() - i4,
        {
            let t = self.requesting[i4];
            let ghost before = new_requesting@;
            if contains_tile(&needed, &t) {
                proof {
                    assert(!new_requesting@.contains(t)) by {
                        if new_requesting@.contains(t) {
                            let k = choose|k: int|
                                0 <= k < i4 && #[trigger] self.requesting@.subrange(
                                    0,
                                    i4 as int,
                                )[k] == t;
                            assert(self.requesting@[k] == t && self.requesting@[i4 as int]
                                == t);
                        }
                    }
                }
                new_requesting.push(t);
            }
            proof {
                assert forall|tt: TileId| #[trigger]
                    new_requesting@.contains(tt) implies (self.requesting@.subrange(
                    0,
                    i4 as int + 1,
                ).contains(tt) && needed@.contains(tt)) by {
                    if before.contains(tt) {
                        let k = choose|k: int|
                            0 <= k < i4 && #[trigger] self.requesting@.subrange(0, i4 as int)[k]
                                == tt;
                        assert(self.requesting@.subrange(0, i4 as int + 1)[k] == tt);
                    } else {
                        assert(tt == t);
                        assert(self.requesting@.subrange(0, i4 as int + 1)[i4 as int] == tt);
                    }
                }
                assert forall|tt: TileId|
                    (self.requesting@.subrange(0, i4 as int + 1).contains(tt)
                        && needed@.contains(tt)) implies #[trigger] new_requesting@.contains(
                    tt,
                ) by {
                    let k = choose|k: int|
                        0 <= k < i4 + 1 && #[trigger] self.requesting@.subrange(
                            0,
                            i4 as int + 1,
                        )[k] == tt;
                    if k < i4 {
                        assert(self.requesting@.subrange(0, i4 as int)[k] == tt);
                        assert(before.contains(tt));
                        let j = choose|j: int| 0 <= j < before.len() && before[j] == tt;
                        assert(new_requesting@[j] == tt);
                    } else {
                        assert(tt == t);
                        assert(new_requesting@[new_requesting@.len() - 1] == tt);
                    }
                }
            }
            i4 = i4 + 1;
        }
        proof {
            assert(self.requesting@.subrange(0, self.requesting@.len() as int)
                =~= self.requesting@);
        }
        // enqueue the missing tiles: farthest from the centre first, so
        // the recency-ordered queue serves the nearest next
        let ghost kept = new_requesting@;
        let ghost can_all = old(self).fetch_queue.spec_next_serial() + plan.request@.len()
            <= u64::MAX;
        let ghost base_serial = self.fetch_queue.spec_next_serial();
        let nr_total = plan.request.len();
        let mut i5: usize = 0;
        proof {
            assert(self.fetch_queue@.subrange(0, qbase.len() as int) =~= qbase);
        }
        while i5 < nr_total
            invariant
                i5 <= nr_total,
                nr_total == plan.request@.len(),
                self.fetch_queue.wf(),
                distinct_tiles(plan.request@),
                distinct_tiles(new_requesting@),
                forall|t: TileId|
                    #[trigger] plan.request@.contains(t) ==> !kept.contains(t),
                forall|t: TileId|
                    new_requesting@.contains(t) <==> (kept.contains(t) || plan.request@.subrange(
                        nr_total - i5,
                        nr_total as int,
                    ).contains(t)),
                self.url_template == old(self).url_template,
                self.tiles == old(self).tiles,
                self.resident_ids == old(self).resident_ids,
                self.requesting == old(self).requesting,
                self.options == old(self).options,
                forall|k: int|
                    0 <= k < self.fetch_queue@.len() ==> ((old(self).requesting@.contains(
                        (#[trigger] self.fetch_queue@[k]).spec_id(),
                    ) && needed@.contains(self.fetch_queue@[k].spec_id()))
                        || plan.request@.contains(self.fetch_queue@[k].spec_id())),
                can_all ==> {
                    &&& self.fetch_queue.spec_next_serial() == base_serial + i5
                    &&& self.fetch_queue@.len() == qbase.len() + i5
                    &&& self.fetch_queue@.subrange(0, qbase.len() as int) == qbase
                    &&& forall|j: int|
                        0 <= j < i5 ==> is_tile_request(
                            #[trigger] self.fetch_queue@[qbase.len() + j],
                            plan.request@[nr_total - 1 - j],
                            old(self).url_template@,
                            old(self).options.url_subdomains,
                            old(self).options.headers@,
                        )
                },
            decreases nr_total - i5,
        {
            let ghost before = new_requesting@;
            let ghost q_before = self.fetch_queue@;
            proof {
                assert(forall|u: TileId|
                    before.contains(u) <==> (kept.contains(u) || plan.request@.subrange(
                        nr_total - i5,
                        nr_total as int,
                    ).contains(u)));
            }
            let t = plan.request[nr_total - 1 - i5];
            let url = format_tile_url(
                self.url_template.as_str(),
                t.z,
                t.x,
                t.y,
                &self.options.url_subdomains,
            );
            let mut headers: Vec<(String, String)> = Vec::new();
            let mut hi: usize = 0;
            while hi < self.options.headers.len()
                invariant
                    hi <= self.options.headers@.len(),
                    headers@ == self.options.headers@.subrange(0, hi as int),
                decreases self.options.headers@.len() - hi,
            {
                let name = self.options.headers[hi].0.clone();
                let value = self.options.headers[hi].1.clone();
                headers.push((name, value));
                proof {
                    assert(headers@ =~= self.options.headers@.subrange(0, hi as int + 1));
                }
                hi = hi + 1;
            }
            proof {
                assert(headers@ =~= self.options.headers@);
            }
            let request = HttpRequest::Get { id: t, url, headers };
            let ghost request_v = request;
            proof {
                if can_all {
                    // nothing queued carries this key: the kept entries
                    // are still-outstanding ones, the new entries are
                    // other missing tiles
                    assert forall|k: int|
                        0 <= k < q_before.len() implies (#[trigger] q_before[k]).spec_id()
                        != t by {
                        if k < qbase.len() {
                            assert(q_before.subrange(0, qbase.len() as int)[k]
                                == q_before[k]);
                            assert(q_before[k] == qbase[k]);
                            assert(old(self).requesting@.contains(qbase[k].spec_id()));
                            assert(!old(self).requesting@.contains(t));
                        } else {
                            let j = k - qbase.len();
                            assert(q_before[qbase.len() + j] == q_before[k]);
                            assert(is_tile_request(
                                q_before[k],
                                plan.request@[nr_total - 1 - (k - qbase.len())],
                                old(self).url_template@,
                                old(self).options.url_subdomains,
                                old(self).options.headers@,
                            ));
                            assert(q_before[k].spec_id() == plan.request@[nr_total - 1 - (k
                                - qbase.len())]);
                            assert(plan.request@[nr_total - 1 - (k - qbase.len())]
                                != plan.request@[nr_total - 1 - i5 as int]);
                        }
                    }
                    crate::fetch::lemma_cancel_absent_is_noop(q_before, t);
                }
                assert(is_tile_request(
                    request_v,
                    t,
                    old(self).url_template@,
                    old(self).options.url_subdomains,
                    old(self).options.headers@,
                ));
            }
            let accepted = self.fetch_queue.send(request);
            proof {
                assert(request_v.spec_id() == t);
                assert(crate::fetch::keeps_key(request_v.spec_id()) == crate::fetch::keeps_key(
                    t,
                ));
                if can_all {
                    assert(accepted);
                    assert(self.fetch_queue@ =~= q_before.push(request_v));
                    assert(self.fetch_queue@.subrange(0, qbase.len() as int) =~= qbase);
                }
                assert forall|k: int|
                    0 <= k < self.fetch_queue@.len() implies ((old(self).requesting@.contains(
                        (#[trigger] self.fetch_queue@[k]).spec_id(),
                    ) && needed@.contains(self.fetch_queue@[k].spec_id()))
                        || plan.request@.contains(self.fetch_queue@[k].spec_id())) by {
                    let rq = self.fetch_queue@[k];
                    if !accepted {
                        assert(q_before[k] == rq);
                    } else if rq == request_v {
                        assert(plan.request@[nr_total - 1 - i5 as int] == t);
                        assert(plan.request@.contains(t));
                    } else {
                        let filtered = q_before.filter(crate::fetch::keeps_key(t));
                        assert(self.fetch_queue@ == filtered.push(request_v));
                        assert(k < self.fetch_queue@.len() - 1) by {
                            if k == self.fetch_queue@.len() - 1 {
                                assert(rq == request_v);
                            }
                        }
                        assert(filtered[k] == rq);
                        assert(filtered.contains(rq));
                        crate::fetch::lemma_filter_keeps_members(
                            q_before,
                            crate::fetch::keeps_key(t),
                            rq,
                        );
                        let k0 = choose|k0: int|
                            0 <= k0 < q_before.len() && q_before[k0] == rq;
                    }
                }
                assert(!new_requesting@.contains(t)) by {
                    if new_requesting@.contains(t) {
                        if kept.contains(t) {
                            assert(plan.request@.contains(t));
                        } else {
                            let k = choose|k: int|
                                nr_total - i5 <= k < nr_total && #[trigger] plan.request@.subrange(
                                    nr_total - i5,
                                    nr_total as int,
                                )[k - (nr_total - i5)] == t;
                            assert(plan.request@[k] == t && plan.request@[nr_total - 1
                                - i5 as int] == t);
                        }
                    }
                }
            }
            new_requesting.push(t);
            proof {
                assert forall|tt: TileId| #[trigger]
                    new_requesting@.contains(tt) implies (kept.contains(tt)
                    || plan.request@.subrange(nr_total - i5 - 1, nr_total as int).contains(
                    tt,
                )) by {
                    if before.contains(tt) {
                        if !kept.contains(tt) {
                            let k = choose|k: int|
                                0 <= k < i5 && #[trigger] plan.request@.subrange(
                                    nr_total - i5,
                                    nr_total as int,
                                )[k] == tt;
                            assert(plan.request@.subrange(nr_total - i5 - 1, nr_total as int)[
                                k + 1] == tt);
                        }
                    } else {
                        assert(tt == t);
                        assert(plan.request@.subrange(nr_total - i5 - 1, nr_total as int)[0]
                            == tt);
                    }
                }
                assert forall|tt: TileId|
                    (kept.contains(tt) || plan.request@.subrange(
                        nr_total - i5 - 1,
                        nr_total as int,
                    ).contains(tt)) implies #[trigger] new_requesting@.contains(tt) by {
                    if kept.contains(tt) || plan.request@.subrange(
                        nr_total - i5,
                        nr_total as int,
                    ).contains(tt) {
                        assert(before.contains(tt));
                        let j = choose|j: int| 0 <= j < before.len() && before[j] == tt;
                        assert(new_requesting@[j] == tt);
                    } else {
                        let k = choose|k: int|
                            0 <= k < i5 + 1 && #[trigger] plan.request@.subrange(
                                nr_total - i5 - 1,
                                nr_total as int,
                            )[k] == tt;
                        assert(k == 0) by {
                            if k > 0 {
                                assert(plan.request@.subrange(nr_total - i5, nr_total as int)[
                                    k - 1] == tt);
                            }
                        }
                        assert(tt == t);
                        assert(new_requesting@[new_requesting@.len() - 1] == tt);
                    }
                }
                assert(distinct_tiles(new_requesting@)) by {
                    assert forall|k1: int, k2: int|
                        #![trigger new_requesting@[k1], new_requesting@[k2]]
                        0 <= k1 < k2 < new_requesting@.len() implies new_requesting@[k1]
                        != new_requesting@[k2] by {
                        if k2 == new_requesting@.len() - 1 {
                            assert(new_requesting@[k1] == before[k1]);
                            assert(before.contains(before[k1]));
                        } else {
                            assert(new_requesting@[k1] == before[k1] && new_requesting@[k2]
                                == before[k2]);
                        }
                    }
                }
            }
            i5 = i5 + 1;
        }
        proof {
            assert(plan.request@.subrange(0, nr_total as int) =~= plan.request@);
            assert forall|tt: TileId|
                new_requesting@.contains(tt) <==> (kept.contains(tt) || plan.request@.contains(
                    tt,
                )) by {
                if plan.request@.contains(tt) {
                    let k = choose|k: int| 0 <= k < nr_total && plan.request@[k] == tt;
                    assert(plan.request@.subrange(0, nr_total as int)[k] == tt);
                }
                if new_requesting@.contains(tt) && !kept.contains(tt) {
                    let k = choose|k: int|
                        0 <= k < nr_total && #[trigger] plan.request@.subrange(
                            0,
                            nr_total as int,
                        )[k] == tt;
                    assert(plan.request@[k] == tt);
                }
            }
        }
        let ghost final_req = new_requesting@;
        self.requesting = new_requesting;
        let ghost q_done = self.fetch_queue;
        // attach promoted tiles and stand-ins, then evict
        let ghost dom0 = dashmap_entries(self.tiles);
        proof {
            assert(self.tiles == old(self).tiles);
            assert forall|t: TileId| old(self).resident_ids@.contains(t) implies
                dom0.dom().contains(#[trigger] pack_tile(t)) by {
                assert(dashmap_entries(old(self).tiles).dom().contains(pack_tile(t)));
            }
            assert forall|key: u128| #[trigger]
                dom0.dom().contains(key) implies exists|t: TileId|
                old(self).resident_ids@.contains(t) && pack_tile(t) == key by {
                assert(dashmap_entries(old(self).tiles).dom().contains(key));
            }
        }
        let mut i6: usize = 0;
        while i6 < plan.promote.len()
            invariant
                i6 <= plan.promote@.len(),
                self.requesting@ == final_req,
                self.resident_ids == old(self).resident_ids,
                self.options == old(self).options,
                self.url_template == old(self).url_template,
                self.fetch_queue == q_done,
                self.fetch_queue.wf(),
                forall|key: u128|
                    #![trigger dashmap_entries(self.tiles).dom().contains(key)]
                    dashmap_entries(self.tiles).dom().contains(key) <==> (dom0.dom().contains(
                        key,
                    ) || packed_in(plan.promote@.subrange(0, i6 as int), key)),
            decreases plan.promote@.len() - i6,
        {
            let t = plan.promote[i6];
            let payload = take_payload(&mut payloads, &t);
            let key = pack_tile_exec(&t);
            match payload {
                Some(v) => dm_insert(&mut self.tiles, key, v),
                None => dm_insert(&mut self.tiles, key, Vec::new()),
            }
            proof {
                assert forall|kk: u128|
                    dashmap_entries(self.tiles).dom().contains(kk) <==> (dom0.dom().contains(
                        kk,
                    ) || packed_in(plan.promote@.subrange(0, i6 as int + 1), kk)) by {
                    if kk == key {
                        assert(plan.promote@.subrange(0, i6 as int + 1)[i6 as int] == t);
                        assert(packed_in(plan.promote@.subrange(0, i6 as int + 1), kk));
                    } else {
                        if packed_in(plan.promote@.subrange(0, i6 as int), kk) {
                            let k = choose|k: int|
                                0 <= k < i6 && pack_tile(
                                    #[trigger] plan.promote@.subrange(0, i6 as int)[k],
                                ) == kk;
                            assert(plan.promote@.subrange(0, i6 as int + 1)[k]
                                == plan.promote@.subrange(0, i6 as int)[k]);
                        }
                        if packed_in(plan.promote@.subrange(0, i6 as int + 1), kk) {
                            let k = choose|k: int|
                                0 <= k < i6 + 1 && pack_tile(
                                    #[trigger] plan.promote@.subrange(0, i6 as int + 1)[k],
                                ) == kk;
                            if k < i6 {
                                assert(plan.promote@.subrange(0, i6 as int)[k]
                                    == plan.promote@.subrange(0, i6 as int + 1)[k]);
                                assert(packed_in(plan.promote@.subrange(0, i6 as int), kk));
                            }
                        }
                    }
                }
            }
            i6 = i6 + 1;
        }
        proof {
            assert(plan.promote@.subrange(0, plan.promote@.len() as int) =~= plan.promote@);
        }
        let ghost dom1 = dashmap_entries(self.tiles);
        let mut i7: usize = 0;
        while i7 < plan.fallback.len()
            invariant
                i7 <= plan.fallback@.len(),
                self.requesting@ == final_req,
                self.resident_ids == old(self).resident_ids,
                self.options == old(self).options,
                self.url_template == old(self).url_template,
                self.fetch_queue == q_done,
                self.fetch_queue.wf(),
                forall|key: u128|
                    #![trigger dashmap_entries(self.tiles).dom().contains(key)]
                    dashmap_entries(self.tiles).dom().contains(key) <==> (dom1.dom().contains(
                        key,
                    ) || packed_in(plan.fallback@.subrange(0, i7 as int), key)),
            decreases plan.fallback@.len() - i7,
        {
            let t = plan.fallback[i7];
            let payload = take_payload(&mut payloads, &t);
            let key = pack_tile_exec(&t);
            match payload {
                Some(v) => dm_insert(&mut self.tiles, key, v),
                None => dm_insert(&mut self.tiles, key, Vec::new()),
            }
            proof {
                assert forall|kk: u128|
                    dashmap_entries(self.tiles).dom().contains(kk) <==> (dom1.dom().contains(
                        kk,
                    ) || packed_in(plan.fallback@.subrange(0, i7 as int + 1), kk)) by {
                    if kk == key {
                        assert(plan.fallback@.subrange(0, i7 as int + 1)[i7 as int] == t);
                        assert(packed_in(plan.fallback@.subrange(0, i7 as int + 1), kk));
                    } else {
                        if packed_in(plan.fallback@.subrange(0, i7 as int), kk) {
                            let k = choose|k: int|
                                0 <= k < i7 && pack_tile(
                                    #[trigger] plan.fallback@.subrange(0, i7 as int)[k],
                                ) == kk;
                            assert(plan.fallback@.subrange(0, i7 as int + 1)[k]
                                == plan.fallback@.subrange(0, i7 as int)[k]);
                        }
                        if packed_in(plan.fallback@.subrange(0, i7 as int + 1), kk) {
                            let k = choose|k: int|
                                0 <= k < i7 + 1 && pack_tile(
                                    #[trigger] plan.fallback@.subrange(0, i7 as int + 1)[k],
                                ) == kk;
                            if k < i7 {
                                assert(plan.fallback@.subrange(0, i7 as int)[k]
                                    == plan.fallback@.subrange(0, i7 as int + 1)[k]);
                                assert(packed_in(plan.fallback@.subrange(0, i7 as int), kk));
                            }
                        }
                    }
                }
            }
            i7 = i7 + 1;
        }
        proof {
            assert(plan.fallback@.subrange(0, plan.fallback@.len() as int) =~= plan.fallback@);
        }
        let ghost dom2 = dashmap_entries(self.tiles);
        let mut i8: usize = 0;
        while i8 < plan.evict.len()
            invariant
                i8 <= plan.evict@.len(),
                self.requesting@ == final_req,
                self.resident_ids == old(self).resident_ids,
                self.options == old(self).options,
                self.url_template == old(self).url_template,
                self.fetch_queue == q_done,
                self.fetch_queue.wf(),
                forall|key: u128|
                    #![trigger dashmap_entries(self.tiles).dom().contains(key)]
                    dashmap_entries(self.tiles).dom().contains(key) <==> (dom2.dom().contains(
                        key,
                    ) && !packed_in(plan.evict@.subrange(0, i8 as int), key)),
            decreases plan.evict@.len() - i8,
        {
            let t = plan.evict[i8];
            let key = pack_tile_exec(&t);
            dm_remove(&mut self.tiles, &key);
            proof {
                assert forall|kk: u128|
                    dashmap_entries(self.tiles).dom().contains(kk) <==> (dom2.dom().contains(
                        kk,
                    ) && !packed_in(plan.evict@.subrange(0, i8 as int + 1), kk)) by {
                    if kk == key {
                        assert(plan.evict@.subrange(0, i8 as int + 1)[i8 as int] == t);
                        assert(packed_in(plan.evict@.subrange(0, i8 as int + 1), kk));
                    } else {
                        if packed_in(plan.evict@.subrange(0, i8 as int), kk) {
                            let k = choose|k: int|
                                0 <= k < i8 && pack_tile(
                                    #[trigger] plan.evict@.subrange(0, i8 as int)[k],
                                ) == kk;
                            assert(plan.evict@.subrange(0, i8 as int + 1)[k]
                                == plan.evict@.subrange(0, i8 as int)[k]);
                        }
                        if packed_in(plan.evict@.subrange(0, i8 as int + 1), kk) {
                            let k = choose|k: int|
                                0 <= k < i8 + 1 && pack_tile(
                                    #[trigger] plan.evict@.subrange(0, i8 as int + 1)[k],
                                ) == kk;
                            if k < i8 {
                                assert(plan.evict@.subrange(0, i8 as int)[k]
                                    == plan.evict@.subrange(0, i8 as int + 1)[k]);
                                assert(packed_in(plan.evict@.subrange(0, i8 as int), kk));
                            }
                        }
                    }
                }
            }
            i8 = i8 + 1;
        }
        proof {
            assert(plan.evict@.subrange(0, plan.evict@.len() as int) =~= plan.evict@);
        }
        self.resident_ids = clone_resident(&plan.resident);
        proof {
            // every queued request's key is outstanding
            assert forall|k: int|
                0 <= k < self.fetch_queue@.len() implies self.requesting@.contains(
                (#[trigger] self.fetch_queue@[k]).spec_id(),
            ) by {
                assert(self.fetch_queue == q_done);
                let id = (self.fetch_queue@[k]).spec_id();
                assert((old(self).requesting@.contains(id) && needed@.contains(id))
                    || plan.request@.contains(id));
                assert(final_req.contains(id)) by {
                    if old(self).requesting@.contains(id) && needed@.contains(id) {
                        assert(kept.contains(id));
                    }
                }
            }
            assert forall|t: TileId| #[trigger]
                self.resident_ids@.contains(t) implies dashmap_entries(
                self.tiles,
            ).dom().contains(pack_tile(t)) by {
                assert(plan.resident@.contains(t));
                if packed_in(plan.evict@, pack_tile(t)) {
                    let k = choose|k: int|
                        0 <= k < plan.evict@.len() && pack_tile(#[trigger] plan.evict@[k])
                            == pack_tile(t);
                    lemma_pack_injective(plan.evict@[k], t);
                    assert(plan.evict@.contains(t));
                }
                if !dom0.dom().contains(pack_tile(t)) && !packed_in(
                    plan.promote@,
                    pack_tile(t),
                ) && !packed_in(plan.fallback@, pack_tile(t)) {
                    assert(old(self).resident_ids@.contains(t) || plan.promote@.contains(t)
                        || plan.fallback@.contains(t));
                    if old(self).resident_ids@.contains(t) {
                        assert(dom0.dom().contains(pack_tile(t)));
                    }
                    if plan.promote@.contains(t) {
                        let k = choose|k: int|
                            0 <= k < plan.promote@.len() && plan.promote@[k] == t;
                        assert(pack_tile(#[trigger] plan.promote@[k]) == pack_tile(t));
                        assert(packed_in(plan.promote@, pack_tile(t)));
                    }
                    if plan.fallback@.contains(t) {
                        let k = choose|k: int|
                            0 <= k < plan.fallback@.len() && plan.fallback@[k] == t;
                        assert(pack_tile(#[trigger] plan.fallback@[k]) == pack_tile(t));
                        assert(packed_in(plan.fallback@, pack_tile(t)));
                    }
                }
            }
            assert forall|key: u128| #[trigger]
                dashmap_entries(self.tiles).dom().contains(key) implies exists|t: TileId|
                self.resident_ids@.contains(t) && pack_tile(t) == key by {
                assert(dom2.dom().contains(key) && !packed_in(plan.evict@, key));
                let t: TileId = if dom0.dom().contains(key) {
                    choose|t: TileId| old(self).resident_ids@.contains(t) && pack_tile(t) == key
                } else if packed_in(plan.promote@, key) {
                    choose|t: TileId| plan.promote@.contains(t) && pack_tile(t) == key
                } else {
                    choose|t: TileId| plan.fallback@.contains(t) && pack_tile(t) == key
                };
                if dom0.dom().contains(key) {
                    assert(old(self).resident_ids@.contains(t) && pack_tile(t) == key);
                } else if packed_in(plan.promote@, key) {
                    let k = choose|k: int|
                        0 <= k < plan.promote@.len() && pack_tile(#[trigger] plan.promote@[k])
                            == key;
                    assert(plan.promote@.contains(plan.promote@[k]));
                    assert(plan.promote@.contains(t) && pack_tile(t) == key);
                } else {
                    let k = choose|k: int|
                        0 <= k < plan.fallback@.len() && pack_tile(
                            #[trigger] plan.fallback@[k],
                        ) == key;
                    assert(plan.fallback@.contains(plan.fallback@[k]));
                    assert(plan.fallback@.contains(t) && pack_tile(t) == key);
                }
                assert(old(self).resident_ids@.contains(t) || plan.promote@.contains(t)
                    || plan.fallback@.contains(t));
                assert(!plan.evict@.contains(t)) by {
                    if plan.evict@.contains(t) {
                        let k = choose|k: int|
                            0 <= k < plan.evict@.len() && plan.evict@[k] == t;
                        assert(pack_tile(#[trigger] plan.evict@[k]) == key);
                        assert(packed_in(plan.evict@, key));
                    }
                }
                assert(plan.resident@.contains(t));
            }
        }
        (needed, plan)
    }

    /// Probes the persistent cache for one address; a hit is recorded in
    /// the observation lists.
    fn observe_cached(
        &mut self,
        t: &TileId,
        cached_ids: &mut Vec<TileId>,
        payloads: &mut Vec<(TileId, Vec<u8>)>,
    )
        requires
            distinct_tiles(old(cached_ids)@),
        ensures
            distinct_tiles(final(cached_ids)@),
            forall|u: TileId|
                final(cached_ids)@.contains(u) ==> (old(cached_ids)@.contains(u) || u == *t),
            forall|u: TileId|
                old(cached_ids)@.contains(u) ==> final(cached_ids)@.contains(u),
            final(self).url_template == old(self).url_template,
            final(self).fetch_queue == old(self).fetch_queue,
            final(self).requesting == old(self).requesting,
            final(self).resident_ids == old(self).resident_ids,
            final(self).tiles == old(self).tiles,
            final(self).options == old(self).options,
    {
        if contains_tile(cached_ids, t) {
            return ;
        }
        let key = pack_tile_exec(t);
        match cache_get(&mut self.tiles_cache, &key) {
            Some(v) => {
                let ghost before = cached_ids@;
                cached_ids.push(*t);
                payloads.push((*t, v));
                proof {
                    assert forall|u: TileId| #[trigger]
                        cached_ids@.contains(u) implies (before.contains(u) || u == *t) by {
                        let k = choose|k: int| 0 <= k < cached_ids@.len() && cached_ids@[k] == u;
                        if k < cached_ids@.len() - 1 {
                            assert(before[k] == u);
                        }
                    }
                    assert forall|u: TileId| before.contains(u) implies
                        #[trigger] cached_ids@.contains(u) by {
                        let k = choose|k: int| 0 <= k < before.len() && before[k] == u;
                        assert(cached_ids@[k] == u);
                    }
                    assert(distinct_tiles(cached_ids@)) by {
                        assert forall|k1: int, k2: int|
                            #![trigger cached_ids@[k1], cached_ids@[k2]]
                            0 <= k1 < k2 < cached_ids@.len() implies cached_ids@[k1]
                            != cached_ids@[k2] by {
                            if k2 == cached_ids@.len() - 1 {
                                assert(cached_ids@[k1] == before[k1]);
                                assert(before.contains(before[k1]));
                            } else {
                                assert(cached_ids@[k1] == before[k1] && cached_ids@[k2]
                                    == before[k2]);
                            }
                        }
                    }
                }
            },
            None => {},
        }
    }
}

/// Takes the recorded payload of one address out of the observation list.
fn take_payload(payloads: &mut Vec<(TileId, Vec<u8>)>, t: &TileId) -> (r: Option<Vec<u8>>)
    ensures
        r is Some ==> old(payloads)@.contains((*t, r->0)),
{
    let mut i: usize = 0;
    while i < payloads.len()
        invariant
            i <= payloads@.len(),
            payloads@ == old(payloads)@,
        decreases payloads@.len() - i,
    {
        if payloads[i].0 == *t {
            let entry = payloads.remove(i);
            proof {
                assert(old(payloads)@[i as int] == entry);
                assert(old(payloads)@.contains((*t, entry.1))) by {
                    assert(old(payloads)@[i as int] == (*t, entry.1));
                }
            }
            return Some(entry.1);
        }
        i = i + 1;
    }
    None
}

/// Adds an address unless present.
fn push_unique_tiles(v: &mut Vec<TileId>, t: TileId)
    requires
        distinct_tiles(old(v)@),
    ensures
        distinct_tiles(final(v)@),
        forall|u: TileId| final(v)@.contains(u) <==> (old(v)@.contains(u) || u == t),
{
    crate::resample::push_tile(v, t)
}

/// A copy of the resident list.
fn clone_resident(v: &Vec<TileId>) -> (r: Vec<TileId>)
    ensures
        r@ == v@,
{
    crate::resample::clone_tiles(v)
}

} // verus!
