//! Sectors and the sector graph: the polygonal cells of the tessellation,
//! their adjacency relation, and key-based lookups.

use vstd::prelude::*;

use crate::biome::Biome;
use crate::geom::{dist_sq, dist_sq_val, in_rect, point_ok, poly_ok, Vec2i, COORD_LIMIT, SCALE};
use crate::rng::{wy_advance, wy_draw, RandomStream};

verus! {

/// Largest number of sectors a graph may hold.
pub const SECTOR_LIMIT: usize = 0x10_0000;

/// Largest traversal-cost multiplier, in thousandths.
pub const COST_LIMIT: u32 = 1_000_000;

/// The errors world generation can report.
#[derive(Clone, Copy, Debug, PartialEq, Eq, Structural)]
pub enum GenError {
    /// The configured map rectangle is degenerate or out of range.
    DegenerateSize,
    /// Fewer than three usable cells reached the graph builder.
    TooFewSites,
    /// A tessellation cell was malformed: too few vertices, a vertex outside
    /// the clipped rectangle, a zero-area polygon, or an oversized input.
    DegenerateCell,
    /// The name pool holds fewer names than the requested number of cities.
    TooFewNames,
    /// A lookup used a key that is not a valid sector, city, or road.
    UnknownSector,
    /// No path exists between the requested endpoints.
    NoPathFound,
}

/// A single polygonal cell of the map with its graph attributes.
#[derive(Debug, Clone)]
pub struct Sector {
    /// The point that generated this cell in the tessellation.
    pub site: Vec2i,
    /// The cell boundary, in polygon winding order.
    pub border: Vec<Vec2i>,
    /// The area-weighted centroid of the cell polygon.
    pub centroid: Vec2i,
    /// Terrain height in thousandths, within `[0, 1000]`.
    pub height: u32,
    /// The biome assigned by propagation; `None` before propagation.
    pub biome: Option<Biome>,
    /// Cost per unit of traversing this sector, in thousandths.
    pub cost: u32,
    /// Keys of the adjacent sectors.
    pub neighbors: Vec<usize>,
}

/// A well-formed sector at key `i` of a graph with `n` sectors.
pub open spec fn wf_sector(s: Sector, i: int, n: int) -> bool {
    &&& poly_ok(s.border@)
    &&& point_ok(s.site)
    &&& in_rect(s.centroid)
    &&& s.height <= 1000
    &&& SCALE <= s.cost <= COST_LIMIT
    &&& forall|k: int|
        0 <= k < s.neighbors@.len() ==> (#[trigger] s.neighbors@[k]) < n && s.neighbors@[k] != i
}

/// Sector `j` is listed among the neighbors of sector `i`.
pub open spec fn adjacent(s: Seq<Sector>, i: int, j: int) -> bool {
    &&& 0 <= i < s.len()
    &&& exists|k: int| 0 <= k < s[i].neighbors@.len() && #[trigger] s[i].neighbors@[k] == j
}

/// `p` is a walk through adjacent sectors from `a` to `b`.
pub open spec fn is_path(s: Seq<Sector>, p: Seq<int>, a: int, b: int) -> bool {
    &&& p.len() >= 1
    &&& p[0] == a
    &&& p[p.len() - 1] == b
    &&& forall|k: int| 0 <= k < p.len() ==> 0 <= #[trigger] p[k] < s.len()
    &&& forall|k: int| 0 <= k < p.len() - 1 ==> adjacent(s, #[trigger] p[k], p[k + 1])
}

/// Some walk joins `a` to `b`.
pub open spec fn reachable(s: Seq<Sector>, a: int, b: int) -> bool {
    exists|p: Seq<int>| is_path(s, p, a, b)
}

/// Every sector can be reached from every other sector.
pub open spec fn connected(s: Seq<Sector>) -> bool {
    forall|a: int, b: int|
        0 <= a < s.len() && 0 <= b < s.len() ==> #[trigger] reachable(s, a, b)
}

/// The whole map: an arena of sectors addressed by index keys.
#[derive(Debug, Clone)]
pub struct SectorGraph {
    /// All sectors of the map; every cross-reference is an index here.
    pub sectors: Vec<Sector>,
}

impl SectorGraph {
    /// A well-formed graph: bounded, every sector well-formed, and the
    /// neighbor relation symmetric.
    pub open spec fn wf(self) -> bool {
        &&& self.sectors@.len() <= SECTOR_LIMIT
        &&& forall|i: int|
            0 <= i < self.sectors@.len() ==> wf_sector(
                #[trigger] self.sectors@[i],
                i,
                self.sectors@.len() as int,
            )
        &&& forall|i: int, j: int|
            #[trigger] adjacent(self.sectors@, i, j) ==> adjacent(self.sectors@, j, i)
    }

    /// Number of sectors in the map.
    pub fn len(&self) -> (r: usize)
        ensures
            r == self.sectors@.len(),
    {
        self.sectors.len()
    }

    /// Look up a sector by key; an invalid key is a distinct error, never
    /// a panic.
    pub fn sector(&self, key: usize) -> (r: Result<&Sector, GenError>)
        ensures
            match r {
                Ok(s) => key < self.sectors@.len() && *s == self.sectors@[key as int],
                Err(e) => e == GenError::UnknownSector && key >= self.sectors@.len(),
            },
    {
        if key < self.sectors.len() {
            Ok(&self.sectors[key])
        } else {
            Err(GenError::UnknownSector)
        }
    }
}

/// The neighbor relation of a well-formed graph is symmetric: whenever `a`
/// lists `b` as a neighbor, `b` lists `a`.
pub proof fn lemma_neighbors_symmetric(g: SectorGraph, a: int, b: int)
    requires
        g.wf(),
        adjacent(g.sectors@, a, b),
    ensures
        adjacent(g.sectors@, b, a),
{
}

/// Budget of draws for site rejection sampling; when it is exhausted the
/// sampler stops early with fewer sites, which is not an error.
pub const SITE_ATTEMPT_BUDGET: usize = 1_000_000;

/// Minimum squared separation between two accepted sites: one world unit.
pub const MIN_SITE_GAP_SQ: i64 = 1_000_000;

/// A map size the generator accepts.
pub open spec fn size_ok(size: Vec2i) -> bool {
    0 < size.x <= COORD_LIMIT / 2 && 0 < size.y <= COORD_LIMIT / 2
}

/// A boundary margin the generator accepts.
pub open spec fn margin_ok(margin: i64) -> bool {
    0 <= margin <= COORD_LIMIT / 4
}

/// The point lies inside the map rectangle padded by `margin` on each side.
pub open spec fn in_padded_rect(p: Vec2i, size: Vec2i, margin: i64) -> bool {
    &&& -margin <= p.x < size.x + margin
    &&& -margin <= p.y < size.y + margin
}

/// One candidate draw of the site sampler: the point produced by two range
/// draws from state `s0`, and the state after both.
pub open spec fn site_draw(s0: u64, size: Vec2i, margin: i64) -> (Vec2i, u64) {
    let x = -margin + wy_draw(s0, (size.x + 2 * margin) as u64);
    let s1 = wy_advance(s0);
    let y = -margin + wy_draw(s1, (size.y + 2 * margin) as u64);
    let s2 = wy_advance(s1);
    (Vec2i { x: x as i64, y: y as i64 }, s2)
}

/// The accepted-site list and stream state after `k` sampling attempts
/// from state `s0`: each attempt draws one candidate and keeps it unless
/// it falls within the minimum gap of an earlier site; sampling stops once
/// `count` sites are accepted.
pub open spec fn sites_after(s0: u64, size: Vec2i, margin: i64, count: int, k: int) -> (
    Seq<Vec2i>,
    u64,
)
    decreases k,
{
    if k <= 0 {
        (Seq::<Vec2i>::empty(), s0)
    } else {
        let prev = sites_after(s0, size, margin, count, k - 1);
        if prev.0.len() >= count {
            prev
        } else {
            let drawn = site_draw(prev.1, size, margin);
            if exists|i: int|
                0 <= i < prev.0.len() && dist_sq(#[trigger] prev.0[i], drawn.0)
                    < MIN_SITE_GAP_SQ {
                (prev.0, drawn.1)
            } else {
                (prev.0.push(drawn.0), drawn.1)
            }
        }
    }
}

/// Once the sampler has accepted `count` sites, further attempts change
/// nothing.
pub proof fn lemma_sites_after_stable(
    s0: u64,
    size: Vec2i,
    margin: i64,
    count: int,
    k1: int,
    k2: int,
)
    requires
        0 <= k1 <= k2,
        sites_after(s0, size, margin, count, k1).0.len() >= count,
    ensures
        sites_after(s0, size, margin, count, k2) == sites_after(s0, size, margin, count, k1),
    decreases k2 - k1,
{
    if k2 > k1 {
        lemma_sites_after_stable(s0, size, margin, count, k1, k2 - 1);
    }
}

/// Whether `p` comes within the minimum site gap of an accepted site.
fn too_close(sites: &Vec<Vec2i>, p: Vec2i) -> (r: bool)
    requires
        point_ok(p),
        forall|i: int| 0 <= i < sites@.len() ==> point_ok(#[trigger] sites@[i]),
    ensures
        r == exists|i: int|
            0 <= i < sites@.len() && dist_sq(#[trigger] sites@[i], p) < MIN_SITE_GAP_SQ,
{
    let mut i: usize = 0;
    while i < sites.len()
        invariant
            point_ok(p),
            forall|k: int| 0 <= k < sites@.len() ==> point_ok(#[trigger] sites@[k]),
            0 <= i <= sites@.len(),
            forall|k: int| 0 <= k < i ==> dist_sq(#[trigger] sites@[k], p) >= MIN_SITE_GAP_SQ,
        decreases sites@.len() - i,
    {
        if dist_sq_val(sites[i], p) < MIN_SITE_GAP_SQ as i128 {
            return true;
        }
        i = i + 1;
    }
    false
}

/// Reject-sample up to `count` sites inside the padded map rectangle, each
/// at least one world unit away from every earlier site. The sampler stops
/// early, with fewer sites, when the attempt budget runs out. The result
/// and the final stream state are exactly those of the spec-level run of
/// the sampler over the wyrand draws, so the outcome is a function of the
/// starting state alone.
pub fn generate_sites(rng: &mut RandomStream, size: Vec2i, margin: i64, count: usize) -> (r: Vec<
    Vec2i,
>)
    requires
        size_ok(size),
        margin_ok(margin),
    ensures
        r@ == sites_after(
            old(rng).state,
            size,
            margin,
            count as int,
            SITE_ATTEMPT_BUDGET as int,
        ).0,
        final(rng).state == sites_after(
            old(rng).state,
            size,
            margin,
            count as int,
            SITE_ATTEMPT_BUDGET as int,
        ).1,
        r@.len() <= count,
        forall|i: int|
            0 <= i < r@.len() ==> in_padded_rect(#[trigger] r@[i], size, margin) && point_ok(
                r@[i],
            ),
        forall|i: int, j: int|
            0 <= i < r@.len() && 0 <= j < r@.len() && i != j ==> dist_sq(
                #[trigger] r@[i],
                #[trigger] r@[j],
            ) >= MIN_SITE_GAP_SQ,
{
    let mut sites: Vec<Vec2i> = Vec::new();
    let mut attempt: usize = 0;
    while attempt < SITE_ATTEMPT_BUDGET && sites.len() < count
        invariant
            size_ok(size),
            margin_ok(margin),
            0 <= attempt <= SITE_ATTEMPT_BUDGET,
            sites@ == sites_after(old(rng).state, size, margin, count as int, attempt as int).0,
            rng.state == sites_after(old(rng).state, size, margin, count as int, attempt as int).1,
            sites@.len() <= count,
            forall|i: int|
                0 <= i < sites@.len() ==> in_padded_rect(#[trigger] sites@[i], size, margin)
                    && point_ok(sites@[i]),
            forall|i: int, j: int|
                0 <= i < sites@.len() && 0 <= j < sites@.len() && i != j ==> dist_sq(
                    #[trigger] sites@[i],
                    #[trigger] sites@[j],
                ) >= MIN_SITE_GAP_SQ,
        decreases SITE_ATTEMPT_BUDGET - attempt,
    {
        let ghost sites_pre: Seq<Vec2i> = sites@;
        let ghost st_pre: u64 = rng.state;
        attempt = attempt + 1;
        let x = rng.next_in_range_i64(-margin, size.x + margin);
        let y = rng.next_in_range_i64(-margin, size.y + margin);
        let p = Vec2i { x, y };
        proof {
            assert(site_draw(st_pre, size, margin) == (p, rng.state));
        }
        if !too_close(&sites, p) {
            proof {
                crate::geom::lemma_dist_sq_symmetric_all(sites@, p);
            }
            sites.push(p);
        }
        proof {
            let run = sites_after(old(rng).state, size, margin, count as int, attempt as int);
            assert(sites_after(
                old(rng).state,
                size,
                margin,
                count as int,
                attempt as int - 1,
            ) == (sites_pre, st_pre));
            assert(run.0 == sites@ && run.1 == rng.state);
        }
    }
    proof {
        if attempt < SITE_ATTEMPT_BUDGET {
            lemma_sites_after_stable(
                old(rng).state,
                size,
                margin,
                count as int,
                attempt as int,
                SITE_ATTEMPT_BUDGET as int,
            );
        }
    }
    sites
}

/// A tessellation cell handed to the graph builder: plain integer data.
#[derive(Debug, Clone)]
pub struct RawCell {
    /// The generating point of the cell.
    pub site: Vec2i,
    /// The clipped cell polygon.
    pub border: Vec<Vec2i>,
    /// Sampled terrain height in thousandths, within `[0, 1000]`.
    pub height: u32,
}

/// A point inside the clipped map rectangle `[0, size.x] x [0, size.y]`.
pub open spec fn in_map_rect(p: Vec2i, size: Vec2i) -> bool {
    0 <= p.x <= size.x && 0 <= p.y <= size.y
}

/// A border the graph builder accepts: at least three vertices, not too
/// many, every vertex clipped to the map rectangle.
pub open spec fn border_ok(s: Seq<Vec2i>, size: Vec2i) -> bool {
    &&& 3 <= s.len() <= 65536
    &&& forall|i: int| 0 <= i < s.len() ==> #[trigger] in_map_rect(s[i], size)
}

/// A cell the graph builder accepts: a valid polygon clipped to the map
/// rectangle with a computable in-range centroid, a bounded site, and a
/// height within range.
pub open spec fn cell_ok(c: RawCell, size: Vec2i) -> bool {
    &&& border_ok(c.border@, size)
    &&& point_ok(c.site)
    &&& c.height <= 1000
    &&& crate::geom::centroid_of(c.border@) is Some
}

/// Whether the whole builder input is acceptable.
pub open spec fn cells_ok(cells: Seq<RawCell>, adjacency: Seq<Vec<usize>>, size: Vec2i) -> bool {
    &&& cells.len() <= SECTOR_LIMIT
    &&& adjacency.len() == cells.len()
    &&& forall|i: int| 0 <= i < cells.len() ==> cell_ok(#[trigger] cells[i], size)
}

/// A border clipped to an accepted map rectangle is an accepted polygon.
pub proof fn lemma_border_ok_poly_ok(s: Seq<Vec2i>, size: Vec2i)
    requires
        border_ok(s, size),
        size_ok(size),
    ensures
        poly_ok(s),
{
    assert forall|i: int| 0 <= i < s.len() implies #[trigger] in_rect(s[i]) by {
        assert(in_map_rect(s[i], size));
    }
}

/// Whether a vertex list forms an acceptable clipped polygon.
fn check_border(b: &Vec<Vec2i>, size: Vec2i) -> (r: bool)
    ensures
        r == border_ok(b@, size),
{
    if b.len() < 3 || b.len() > 65536 {
        return false;
    }
    let mut i: usize = 0;
    while i < b.len()
        invariant
            3 <= b@.len() <= 65536,
            0 <= i <= b@.len(),
            forall|k: int| 0 <= k < i ==> #[trigger] in_map_rect(b@[k], size),
        decreases b@.len() - i,
    {
        let p = b[i];
        if p.x < 0 || p.x > size.x || p.y < 0 || p.y > size.y {
            proof {
                assert(!in_map_rect(b@[i as int], size));
            }
            return false;
        }
        proof {
            assert(in_map_rect(b@[i as int], size));
        }
        i = i + 1;
    }
    true
}

/// Whether a key list contains a key.
pub(crate) fn contains_key(v: &Vec<usize>, x: usize) -> (r: bool)
    ensures
        r == v@.contains(x),
{
    let mut i: usize = 0;
    while i < v.len()
        invariant
            0 <= i <= v@.len(),
            forall|k: int| 0 <= k < i ==> v@[k] != x,
        decreases v@.len() - i,
    {
        if v[i] == x {
            return true;
        }
        i = i + 1;
    }
    false
}

/// Copy a key list.
pub(crate) fn copy_keys(v: &Vec<usize>) -> (r: Vec<usize>)
    ensures
        r@ == v@,
{
    let mut r: Vec<usize> = Vec::new();
    let mut i: usize = 0;
    while i < v.len()
        invariant
            0 <= i <= v@.len(),
            r@ == v@.subrange(0, i as int),
        decreases v@.len() - i,
    {
        r.push(v[i]);
        i = i + 1;
    }
    proof {
        assert(r@ =~= v@);
    }
    r
}

/// Copy a vector of plain values.
pub(crate) fn copy_vec<T: Copy>(v: &Vec<T>) -> (r: Vec<T>)
    ensures
        r@ == v@,
{
    let mut r: Vec<T> = Vec::new();
    let mut i: usize = 0;
    while i < v.len()
        invariant
            0 <= i <= v@.len(),
            r@ == v@.subrange(0, i as int),
        decreases v@.len() - i,
    {
        r.push(v[i]);
        i = i + 1;
    }
    proof {
        assert(r@ =~= v@);
    }
    r
}

/// Cells `i` and `j` share an edge according to the builder's input: one of
/// the two adjacency lists mentions the other cell.
pub open spec fn input_adjacent(adjacency: Seq<Vec<usize>>, n: int, i: int, j: int) -> bool {
    &&& 0 <= i < n
    &&& 0 <= j < n
    &&& i != j
    &&& (adjacency[i]@.contains(j as usize) || adjacency[j]@.contains(i as usize))
}

/// All fields of the two sectors except the neighbor list agree.
pub open spec fn eq_but_neighbors(s: Sector, t: Sector) -> bool {
    &&& s.site == t.site
    &&& s.border@ == t.border@
    &&& s.centroid == t.centroid
    &&& s.height == t.height
    &&& s.biome == t.biome
    &&& s.cost == t.cost
}

/// Build the sector graph from tessellation cells and their adjacency
/// lists. Every accepted cell becomes one sector with its polygon clipped
/// to the map rectangle, its computed centroid, unit traversal cost, and
/// no biome yet; the neighbor relation is exactly the symmetric closure of
/// the input adjacency, restricted to valid non-self keys.
pub fn generate_map(cells: &Vec<RawCell>, adjacency: &Vec<Vec<usize>>, size: Vec2i) -> (r: Result<
    SectorGraph,
    GenError,
>)
    ensures
        match r {
            Ok(g) => {
                &&& size_ok(size)
                &&& cells@.len() >= 3
                &&& cells_ok(cells@, adjacency@, size)
                &&& g.wf()
                &&& g.sectors@.len() == cells@.len()
                &&& forall|i: int|
                    0 <= i < cells@.len() ==> {
                        let s = #[trigger] g.sectors@[i];
                        &&& s.site == cells@[i].site
                        &&& s.border@ == cells@[i].border@
                        &&& s.height == cells@[i].height
                        &&& s.biome is None
                        &&& s.cost == SCALE
                        &&& Some(s.centroid) == crate::geom::centroid_of(cells@[i].border@)
                        &&& border_ok(s.border@, size)
                    }
                &&& forall|i: int, j: int|
                    #[trigger] adjacent(g.sectors@, i, j) <==> input_adjacent(
                        adjacency@,
                        cells@.len() as int,
                        i,
                        j,
                    )
            },
            Err(e) => {
                ||| (e == GenError::DegenerateSize && !size_ok(size))
                ||| (e == GenError::TooFewSites && size_ok(size) && cells@.len() < 3)
                ||| (e == GenError::DegenerateCell && size_ok(size) && cells@.len() >= 3
                    && !cells_ok(cells@, adjacency@, size))
            },
        },
{
    if size.x <= 0 || size.x > COORD_LIMIT / 2 || size.y <= 0 || size.y > COORD_LIMIT / 2 {
        return Err(GenError::DegenerateSize);
    }
    let n = cells.len();
    if n < 3 {
        return Err(GenError::TooFewSites);
    }
    if n > SECTOR_LIMIT || adjacency.len() != n {
        return Err(GenError::DegenerateCell);
    }
    let mut sectors: Vec<Sector> = Vec::new();
    let mut i: usize = 0;
    while i < n
        invariant
            n == cells@.len(),
            3 <= n <= SECTOR_LIMIT,
            adjacency@.len() == n,
            0 <= i <= n,
            sectors@.len() == i,
            size_ok(size),
            forall|a: int| 0 <= a < i ==> cell_ok(#[trigger] cells@[a], size),
            forall|a: int|
                0 <= a < i ==> {
                    let s = #[trigger] sectors@[a];
                    &&& s.site == cells@[a].site
                    &&& s.border@ == cells@[a].border@
                    &&& s.height == cells@[a].height
                    &&& s.biome is None
                    &&& s.cost == SCALE
                    &&& Some(s.centroid) == crate::geom::centroid_of(cells@[a].border@)
                    &&& border_ok(s.border@, size)
                    &&& poly_ok(s.border@)
                    &&& point_ok(s.site)
                    &&& in_rect(s.centroid)
                    &&& s.height <= 1000
                },
            forall|a: int, k: int|
                0 <= a < i && 0 <= k < sectors@[a].neighbors@.len() ==> (
                #[trigger] sectors@[a].neighbors@[k]) < n && sectors@[a].neighbors@[k] != a,
            forall|a: int, x: usize|
                0 <= a < i ==> (#[trigger] sectors@[a].neighbors@.contains(x) <==> (
                adjacency@[a]@.contains(x) && x < n && x != a)),
        decreases n - i,
    {
        let c = &cells[i];
        if !check_border(&c.border, size) {
            return Err(GenError::DegenerateCell);
        }
        proof {
            lemma_border_ok_poly_ok(c.border@, size);
        }
        if c.site.x < -COORD_LIMIT || c.site.x > COORD_LIMIT || c.site.y < -COORD_LIMIT
            || c.site.y > COORD_LIMIT {
            return Err(GenError::DegenerateCell);
        }
        if c.height > 1000 {
            return Err(GenError::DegenerateCell);
        }
        let cen = crate::geom::centroid(&c.border);
        let centroid_pt: Vec2i;
        match cen {
            Some(p) => {
                centroid_pt = p;
            },
            None => {
                return Err(GenError::DegenerateCell);
            },
        }
        let adj_list = &adjacency[i];
        let mut nb: Vec<usize> = Vec::new();
        let mut k: usize = 0;
        while k < adj_list.len()
            invariant
                n == cells@.len(),
                adjacency@.len() == n,
                i < n,
                adj_list@ == adjacency@[i as int]@,
                0 <= k <= adj_list@.len(),
                forall|t: int| 0 <= t < nb@.len() ==> (#[trigger] nb@[t]) < n && nb@[t] != i,
                forall|x: usize|
                    #[trigger] nb@.contains(x) <==> (adj_list@.subrange(0, k as int).contains(x)
                        && x < n && x != i),
            decreases adj_list@.len() - k,
        {
            let ghost prefix = adj_list@.subrange(0, k as int);
            let ghost prefix1 = adj_list@.subrange(0, k as int + 1);
            proof {
                assert(prefix1.drop_last() =~= prefix);
                assert(prefix1.last() == adj_list@[k as int]);
            }
            let a = adj_list[k];
            if a < n && a != i {
                let ghost nb_pre = nb@;
                nb.push(a);
                proof {
                    assert forall|x: usize| #[trigger]
                        nb@.contains(x) implies (prefix1.contains(x) && x < n && x != i) by {
                        let t = choose|t: int| 0 <= t < nb@.len() && nb@[t] == x;
                        if t < nb_pre.len() {
                            assert(nb_pre.contains(x));
                            assert(prefix.contains(x));
                            let u = choose|u: int| 0 <= u < prefix.len() && prefix[u] == x;
                            assert(prefix1[u] == x);
                        } else {
                            assert(x == a);
                            assert(prefix1[k as int] == x);
                        }
                    }
                    assert forall|x: usize|
                        (prefix1.contains(x) && x < n && x != i) implies #[trigger] nb@.contains(
                        x,
                    ) by {
                        let u = choose|u: int| 0 <= u < prefix1.len() && #[trigger] prefix1[u] == x;
                        if u < k {
                            assert(prefix[u] == x);
                            assert(prefix.contains(x));
                            assert(nb_pre.contains(x));
                            let t = choose|t: int| 0 <= t < nb_pre.len() && nb_pre[t] == x;
                            assert(nb@[t] == x);
                        } else {
                            assert(x == a);
                            assert(nb@[nb@.len() - 1] == x);
                        }
                    }
                }
            } else {
                proof {
                    assert forall|x: usize|
                        (prefix1.contains(x) && x < n && x != i) implies #[trigger] nb@.contains(
                        x,
                    ) by {
                        let u = choose|u: int| 0 <= u < prefix1.len() && #[trigger] prefix1[u] == x;
                        if u < k {
                            assert(prefix[u] == x);
                            assert(prefix.contains(x));
                        }
                    }
                    assert forall|x: usize| #[trigger]
                        nb@.contains(x) implies (prefix1.contains(x) && x < n && x != i) by {
                        assert(prefix.contains(x));
                        let u = choose|u: int| 0 <= u < prefix.len() && prefix[u] == x;
                        assert(prefix1[u] == x);
                    }
                }
            }
            k = k + 1;
        }
        proof {
            assert(adj_list@.subrange(0, adj_list@.len() as int) =~= adj_list@);
        }
        let sector = Sector {
            site: c.site,
            border: copy_vec(&c.border),
            centroid: centroid_pt,
            height: c.height,
            biome: None,
            cost: 1000,
            neighbors: nb,
        };
        let ghost pre_push: Seq<Sector> = sectors@;
        sectors.push(sector);
        proof {
            assert(sectors@[i as int].neighbors@ == nb@);
            assert forall|a: int, k2: int|
                0 <= a < i + 1 && 0 <= k2 < sectors@[a].neighbors@.len() implies (
            #[trigger] sectors@[a].neighbors@[k2]) < n && sectors@[a].neighbors@[k2] != a by {
                if a < i {
                    assert(sectors@[a] == pre_push[a]);
                } else {
                    assert(sectors@[a].neighbors@ == nb@);
                }
            }
            assert forall|a: int, x: usize|
                0 <= a < i + 1 implies (#[trigger] sectors@[a].neighbors@.contains(x) <==> (
            adjacency@[a]@.contains(x) && x < n && x != a)) by {
                if a < i {
                    assert(sectors@[a] == pre_push[a]);
                    assert(pre_push[a].neighbors@.contains(x) <==> (adjacency@[a]@.contains(x) && x
                        < n && x != a));
                } else {
                    assert(sectors@[a].neighbors@ == nb@);
                    assert(nb@.contains(x) <==> (adjacency@[i as int]@.contains(x) && x < n && x
                        != i));
                }
            }
        }
        i = i + 1;
    }
    // Symmetrise the neighbor relation: give every listed edge its converse.
    let ghost orig: Seq<Sector> = sectors@;
    let mut i: usize = 0;
    while i < n
        invariant
            n == cells@.len(),
            3 <= n <= SECTOR_LIMIT,
            adjacency@.len() == n,
            0 <= i <= n,
            sectors@.len() == n,
            orig.len() == n,
            forall|a: int| 0 <= a < n ==> eq_but_neighbors(#[trigger] sectors@[a], orig[a]),
            forall|a: int|
                0 <= a < n ==> orig[a].neighbors@.is_prefix_of(
                    (#[trigger] sectors@[a]).neighbors@,
                ),
            forall|a: int, k: int|
                0 <= a < n && 0 <= k < sectors@[a].neighbors@.len() ==> (
                #[trigger] sectors@[a].neighbors@[k]) < n && sectors@[a].neighbors@[k] != a,
            forall|a: int, b: usize|
                0 <= a < n && (#[trigger] sectors@[a].neighbors@.contains(b)) ==> (
                orig[a].neighbors@.contains(b) || orig[b as int].neighbors@.contains(a as usize)),
            forall|a: int, b: usize|
                0 <= a < i && (#[trigger] sectors@[a].neighbors@.contains(b)) ==> sectors@[
                    b as int
                ].neighbors@.contains(a as usize),
        decreases n - i,
    {
        let snap = copy_keys(&sectors[i].neighbors);
        let mut k: usize = 0;
        while k < snap.len()
            invariant
                n == cells@.len(),
                3 <= n <= SECTOR_LIMIT,
                0 <= i < n,
                0 <= k <= snap@.len(),
                sectors@.len() == n,
                orig.len() == n,
                snap@ == sectors@[i as int].neighbors@,
                forall|a: int| 0 <= a < n ==> eq_but_neighbors(#[trigger] sectors@[a], orig[a]),
                forall|a: int|
                    0 <= a < n ==> orig[a].neighbors@.is_prefix_of(
                        (#[trigger] sectors@[a]).neighbors@,
                    ),
                forall|a: int, t: int|
                    0 <= a < n && 0 <= t < sectors@[a].neighbors@.len() ==> (
                    #[trigger] sectors@[a].neighbors@[t]) < n && sectors@[a].neighbors@[t] != a,
                forall|a: int, b: usize|
                    0 <= a < n && (#[trigger] sectors@[a].neighbors@.contains(b)) ==> (
                    orig[a].neighbors@.contains(b) || orig[b as int].neighbors@.contains(
                        a as usize,
                    )),
                forall|a: int, b: usize|
                    0 <= a < i && (#[trigger] sectors@[a].neighbors@.contains(b)) ==> sectors@[
                        b as int
                    ].neighbors@.contains(a as usize),
                forall|t: int|
                    0 <= t < k ==> sectors@[(#[trigger] snap@[t]) as int].neighbors@.contains(
                        i as usize,
                    ),
            decreases snap@.len() - k,
        {
            let j = snap[k];
            proof {
                assert(snap@[k as int] == j);
                assert(sectors@[i as int].neighbors@[k as int] == j);
                assert(j < n && j != i);
            }
            let ghost pre: Seq<Sector> = sectors@;
            if !contains_key(&sectors[j].neighbors, i) {
                let mut nbj = copy_keys(&sectors[j].neighbors);
                nbj.push(i);
                let old_sector = &sectors[j];
                let updated = Sector {
                    site: old_sector.site,
                    border: copy_vec(&old_sector.border),
                    centroid: old_sector.centroid,
                    height: old_sector.height,
                    biome: old_sector.biome,
                    cost: old_sector.cost,
                    neighbors: nbj,
                };
                sectors.set(j, updated);
                proof {
                    assert(sectors@[j as int].neighbors@ =~= pre[j as int].neighbors@.push(
                        i as usize,
                    ));
                    assert forall|a: int, t: int|
                        0 <= a < n && 0 <= t < sectors@[a].neighbors@.len() implies (
                    #[trigger] sectors@[a].neighbors@[t]) < n && sectors@[a].neighbors@[t]
                        != a by {
                        if a == j {
                            if t < pre[a].neighbors@.len() {
                                assert(sectors@[a].neighbors@[t] == pre[a].neighbors@[t]);
                            } else {
                                assert(sectors@[a].neighbors@[t] == (i as usize));
                            }
                        } else {
                            assert(sectors@[a] == pre[a]);
                        }
                    }
                    assert forall|a: int, b: usize|
                        0 <= a < n && (#[trigger] sectors@[a].neighbors@.contains(
                            b,
                        )) implies (orig[a].neighbors@.contains(b) || orig[b as int].neighbors@
                        .contains(a as usize)) by {
                        if a == j {
                            let t = choose|t: int|
                                0 <= t < sectors@[a].neighbors@.len() && sectors@[a].neighbors@[t]
                                    == b;
                            if t < pre[a].neighbors@.len() {
                                assert(pre[a].neighbors@.contains(b));
                            } else {
                                assert(b == i as usize);
                                assert(pre[i as int].neighbors@.contains(j as usize));
                                assert(orig[i as int].neighbors@.contains(j as usize) || orig[
                                    j as int
                                ].neighbors@.contains(i as usize));
                            }
                        } else {
                            assert(pre[a].neighbors@.contains(b));
                        }
                    }
                    assert forall|a: int, b: usize|
                        0 <= a < i && (#[trigger] sectors@[a].neighbors@.contains(
                            b,
                        )) implies sectors@[b as int].neighbors@.contains(a as usize) by {
                        if a == j {
                            let t = choose|t: int|
                                0 <= t < sectors@[a].neighbors@.len() && sectors@[a].neighbors@[t]
                                    == b;
                            if t < pre[a].neighbors@.len() {
                                assert(pre[a].neighbors@.contains(b));
                                assert(pre[b as int].neighbors@.contains(a as usize));
                                assert(sectors@[b as int].neighbors@.len() >= pre[
                                    b as int
                                ].neighbors@.len());
                                let u = choose|u: int|
                                    0 <= u < pre[b as int].neighbors@.len() && pre[
                                        b as int
                                    ].neighbors@[u] == (a as usize);
                                assert(sectors@[b as int].neighbors@[u] == (a as usize));
                            } else {
                                assert(b == i as usize);
                                assert(snap@ == sectors@[i as int].neighbors@);
                                assert(sectors@[i as int].neighbors@[k as int] == j);
                                assert(sectors@[b as int].neighbors@.contains(a as usize));
                            }
                        } else {
                            assert(pre[a].neighbors@.contains(b));
                            assert(pre[b as int].neighbors@.contains(a as usize));
                            if b as int == j {
                                let u = choose|u: int|
                                    0 <= u < pre[j as int].neighbors@.len() && pre[
                                        j as int
                                    ].neighbors@[u] == (a as usize);
                                assert(sectors@[j as int].neighbors@[u] == (a as usize));
                            } else {
                                assert(sectors@[b as int].neighbors@ == pre[b as int].neighbors@);
                            }
                        }
                    }
                    assert forall|t: int|
                        0 <= t < k + 1 implies sectors@[(#[trigger] snap@[t]) as int].neighbors@
                        .contains(i as usize) by {
                        if t < k {
                            let b0 = snap@[t];
                            assert(pre[b0 as int].neighbors@.contains(i as usize));
                            if b0 == j {
                                let u = choose|u: int|
                                    0 <= u < pre[j as int].neighbors@.len() && pre[
                                        j as int
                                    ].neighbors@[u] == (i as usize);
                                assert(sectors@[j as int].neighbors@[u] == (i as usize));
                            } else {
                                assert(sectors@[b0 as int].neighbors@ == pre[b0 as int].neighbors@);
                            }
                        } else {
                            assert(sectors@[j as int].neighbors@[pre[j as int].neighbors@.len()
                                as int] == (i as usize));
                        }
                    }
                    assert forall|a: int|
                        0 <= a < n implies orig[a].neighbors@.is_prefix_of(
                        (#[trigger] sectors@[a]).neighbors@,
                    ) by {
                        if a == j {
                            assert(orig[a].neighbors@.is_prefix_of(pre[a].neighbors@));
                        }
                    }
                }
            } else {
                proof {
                    assert forall|t: int|
                        0 <= t < k + 1 implies sectors@[(#[trigger] snap@[t]) as int].neighbors@
                        .contains(i as usize) by {
                        if t == k {
                            assert(sectors@[j as int].neighbors@.contains(i as usize));
                        }
                    }
                }
            }
            k = k + 1;
        }
        proof {
            assert forall|a: int, b: usize|
                0 <= a < i + 1 && (#[trigger] sectors@[a].neighbors@.contains(
                    b,
                )) implies sectors@[b as int].neighbors@.contains(a as usize) by {
                if a == i {
                    assert(snap@ == sectors@[i as int].neighbors@);
                    let t = choose|t: int|
                        0 <= t < sectors@[a].neighbors@.len() && sectors@[a].neighbors@[t] == b;
                    assert(snap@[t] == b);
                    assert(sectors@[(snap@[t]) as int].neighbors@.contains(i as usize));
                }
            }
        }
        i = i + 1;
    }
    let g = SectorGraph { sectors };
    proof {
        let s = g.sectors@;
        assert forall|a: int, b: int| #[trigger] adjacent(s, a, b) implies adjacent(s, b, a) by {
            let t = choose|t: int| 0 <= t < s[a].neighbors@.len() && #[trigger] s[a].neighbors@[t]
                == b;
            assert(s[a].neighbors@.contains(b as usize));
            assert(0 <= b < n);
            assert(s[b].neighbors@.contains(a as usize));
            let u = choose|u: int|
                0 <= u < s[b].neighbors@.len() && s[b].neighbors@[u] == (a as usize);
            assert(s[b].neighbors@[u] == a);
        }
        assert forall|a: int, b: int| #[trigger]
            adjacent(s, a, b) implies input_adjacent(adjacency@, n as int, a, b) by {
            let t = choose|t: int| 0 <= t < s[a].neighbors@.len() && #[trigger] s[a].neighbors@[t]
                == b;
            assert(s[a].neighbors@.contains(b as usize));
            assert(0 <= b < n && b != a);
            assert(orig[a].neighbors@.contains(b as usize) || orig[b].neighbors@.contains(
                a as usize,
            ));
        }
        assert forall|a: int, b: int|
            input_adjacent(adjacency@, n as int, a, b) implies #[trigger] adjacent(s, a, b) by {
            if adjacency@[a]@.contains(b as usize) {
                assert(orig[a].neighbors@.contains(b as usize));
                let u = choose|u: int|
                    0 <= u < orig[a].neighbors@.len() && orig[a].neighbors@[u] == (b as usize);
                assert(s[a].neighbors@[u] == (b as usize));
            } else {
                assert(adjacency@[b]@.contains(a as usize));
                assert(orig[b].neighbors@.contains(a as usize));
                let u = choose|u: int|
                    0 <= u < orig[b].neighbors@.len() && orig[b].neighbors@[u] == (a as usize);
                assert(s[b].neighbors@[u] == (a as usize));
                assert(adjacent(s, b, a));
                assert(s[b].neighbors@.contains(a as usize));
                assert(s[a].neighbors@.contains(b as usize));
                let w = choose|w: int|
                    0 <= w < s[a].neighbors@.len() && s[a].neighbors@[w] == (b as usize);
                assert(s[a].neighbors@[w] == b);
            }
        }
    }
    Ok(g)
}

/// All fields of the two sectors except the biome agree.
pub open spec fn eq_but_biome(s: Sector, t: Sector) -> bool {
    &&& s.site == t.site
    &&& s.border@ == t.border@
    &&& s.centroid == t.centroid
    &&& s.height == t.height
    &&& s.cost == t.cost
    &&& s.neighbors@ == t.neighbors@
}

/// Two sector sequences with the same neighbor lists have the same
/// adjacency, the same walks, and the same reachability.
pub proof fn lemma_same_structure(s: Seq<Sector>, t: Seq<Sector>)
    requires
        s.len() == t.len(),
        forall|i: int| 0 <= i < s.len() ==> (#[trigger] s[i]).neighbors@ == t[i].neighbors@,
    ensures
        forall|i: int, j: int| #[trigger] adjacent(s, i, j) <==> #[trigger] adjacent(t, i, j),
        forall|a: int, b: int| #[trigger] reachable(s, a, b) <==> #[trigger] reachable(t, a, b),
        connected(s) <==> connected(t),
{
    assert forall|i: int, j: int| #[trigger]
        adjacent(s, i, j) <==> #[trigger] adjacent(t, i, j) by {
        if adjacent(s, i, j) {
            let k = choose|k: int|
                0 <= k < s[i].neighbors@.len() && #[trigger] s[i].neighbors@[k] == j;
            assert(t[i].neighbors@[k] == j);
        }
        if adjacent(t, i, j) {
            let k = choose|k: int|
                0 <= k < t[i].neighbors@.len() && #[trigger] t[i].neighbors@[k] == j;
            assert(s[i].neighbors@[k] == j);
        }
    }
    assert forall|a: int, b: int| #[trigger]
        reachable(s, a, b) <==> #[trigger] reachable(t, a, b) by {
        if reachable(s, a, b) {
            let p = choose|p: Seq<int>| is_path(s, p, a, b);
            assert(is_path(t, p, a, b));
            assert(reachable(t, a, b));
        }
        if reachable(t, a, b) {
            let p = choose|p: Seq<int>| is_path(t, p, a, b);
            assert(is_path(s, p, a, b));
            assert(reachable(s, a, b));
        }
    }
    if connected(s) {
        assert forall|a: int, b: int|
            0 <= a < t.len() && 0 <= b < t.len() implies #[trigger] reachable(t, a, b) by {
            assert(reachable(s, a, b));
        }
    }
    if connected(t) {
        assert forall|a: int, b: int|
            0 <= a < s.len() && 0 <= b < s.len() implies #[trigger] reachable(s, a, b) by {
            assert(reachable(t, a, b));
        }
    }
}

/// Any sector joined by a walk to a member of a set that is closed under
/// adjacency is itself a member.
pub proof fn lemma_closed_set_covers_path(s: Seq<Sector>, m: Set<int>, p: Seq<int>, a: int, b: int)
    requires
        is_path(s, p, a, b),
        m.contains(a),
        forall|i: int, j: int| m.contains(i) && #[trigger] adjacent(s, i, j) ==> m.contains(j),
    ensures
        m.contains(b),
    decreases p.len(),
{
    if p.len() > 1 {
        assert(adjacent(s, p[0], p[1]));
        let q = p.subrange(1, p.len() as int);
        assert(is_path(s, q, p[1], b));
        lemma_closed_set_covers_path(s, m, q, p[1], b);
    }
}

} // verus!
