//! Shortest-path distances over the walkable tile graph. Tiles are
//! eight-connected; a step may enter a tile only when its blocking flag is
//! clear (the source tile itself is always left freely). Distances are the
//! fixpoint of single-step relaxation, reached after as many rounds as
//! there are tiles: the textbook characterization of breadth-first
//! distance, computed by value iteration.
use vstd::prelude::*;
use vstd::pervasive::VecAdditionalExecFns;
use crate::map::SpatialMap;

verus! {

/// Marker for an unreachable tile.
pub const INF_DIST: u32 = 0xFFFF_FFFF;

/// The recorded distance of the neighbour of `(x, y)` in direction
/// `(dx, dy)`, or unreachable when it falls off the map.
pub open spec fn nbr_dist(map: SpatialMap, d: Seq<u32>, x: int, y: int, dx: int, dy: int) -> int {
    if map.in_bounds_spec(x + dx, y + dy) {
        d[map.idx_of(x + dx, y + dy)] as int
    } else {
        INF_DIST as int
    }
}

pub open spec fn min2(a: int, b: int) -> int {
    if a <= b {
        a
    } else {
        b
    }
}

/// The smallest recorded distance among the eight neighbours of `(x, y)`.
pub open spec fn nbr_min(map: SpatialMap, d: Seq<u32>, x: int, y: int) -> int {
    min2(
        min2(
            min2(nbr_dist(map, d, x, y, -1, 0), nbr_dist(map, d, x, y, 1, 0)),
            min2(nbr_dist(map, d, x, y, 0, -1), nbr_dist(map, d, x, y, 0, 1)),
        ),
        min2(
            min2(nbr_dist(map, d, x, y, -1, -1), nbr_dist(map, d, x, y, 1, -1)),
            min2(nbr_dist(map, d, x, y, -1, 1), nbr_dist(map, d, x, y, 1, 1)),
        ),
    )
}

/// One relaxation round: a tile that may be entered lowers its distance to
/// one more than its best neighbour; a blocked tile keeps its distance.
pub open spec fn relax(map: SpatialMap, blocked: Seq<bool>, d: Seq<u32>) -> Seq<u32> {
    Seq::new(
        d.len(),
        |v: int|
            if blocked[v] {
                d[v]
            } else {
                let m = nbr_min(map, d, v % (map.width as int), v / (map.width as int));
                if m < INF_DIST && m + 1 < d[v] {
                    (m + 1) as u32
                } else {
                    d[v]
                }
            },
    )
}

/// Distances after `k` relaxation rounds from `src`.
pub open spec fn dist_k(map: SpatialMap, blocked: Seq<bool>, src: int, k: int) -> Seq<u32>
    decreases k,
{
    if k <= 0 {
        Seq::new(blocked.len(), |v: int| if v == src { 0u32 } else { INF_DIST })
    } else {
        relax(map, blocked, dist_k(map, blocked, src, k - 1))
    }
}

/// The shortest-path distance field from `src`: relaxation run for one
/// round per tile, enough for any shortest path to settle.
pub open spec fn path_dist(map: SpatialMap, blocked: Seq<bool>, src: int) -> Seq<u32> {
    dist_k(map, blocked, src, map.area())
}

/// Each relaxation round keeps one entry per tile.
pub proof fn lemma_dist_len(map: SpatialMap, blocked: Seq<bool>, src: int, k: int)
    ensures
        dist_k(map, blocked, src, k).len() == blocked.len(),
    decreases k,
{
    if k > 0 {
        lemma_dist_len(map, blocked, src, k - 1);
    }
}

/// Relaxation never touches tiles that may not be entered: a finite
/// distance means the source itself or an unblocked tile.
pub proof fn lemma_finite_unblocked(map: SpatialMap, blocked: Seq<bool>, src: int, k: int, v: int)
    requires
        0 <= v < blocked.len(),
        dist_k(map, blocked, src, k)[v] < INF_DIST,
    ensures
        v == src || !blocked[v],
    decreases k,
{
    if k <= 0 {
        if v != src {
            assert(dist_k(map, blocked, src, k)[v] == INF_DIST);
        }
    } else {
        if blocked[v] {
            lemma_dist_len(map, blocked, src, k - 1);
            assert(dist_k(map, blocked, src, k)[v] == dist_k(map, blocked, src, k - 1)[v]);
            lemma_finite_unblocked(map, blocked, src, k - 1, v);
        }
    }
}

/// Compute the best-neighbour distance of one tile.
fn nbr_min_exec(map: &SpatialMap, d: &Vec<u32>, x: i32, y: i32) -> (m: u32)
    requires
        map.wf(),
        d@.len() == map.area(),
        map.in_bounds_spec(x as int, y as int),
    ensures
        m == nbr_min(*map, d@, x as int, y as int),
{
    let mut acc: u32 = nbr_one(map, d, x, y, -1, 0);
    let mut best: u32;
    best = nbr_one(map, d, x, y, 1, 0);
    if best < acc {
        acc = best;
    }
    best = nbr_one(map, d, x, y, 0, -1);
    if best < acc {
        acc = best;
    }
    best = nbr_one(map, d, x, y, 0, 1);
    if best < acc {
        acc = best;
    }
    best = nbr_one(map, d, x, y, -1, -1);
    if best < acc {
        acc = best;
    }
    best = nbr_one(map, d, x, y, 1, -1);
    if best < acc {
        acc = best;
    }
    best = nbr_one(map, d, x, y, -1, 1);
    if best < acc {
        acc = best;
    }
    best = nbr_one(map, d, x, y, 1, 1);
    if best < acc {
        acc = best;
    }
    acc
}

/// Read one neighbour's recorded distance.
fn nbr_one(map: &SpatialMap, d: &Vec<u32>, x: i32, y: i32, dx: i32, dy: i32) -> (r: u32)
    requires
        map.wf(),
        d@.len() == map.area(),
        map.in_bounds_spec(x as int, y as int),
        -1 <= dx <= 1,
        -1 <= dy <= 1,
    ensures
        r == nbr_dist(*map, d@, x as int, y as int, dx as int, dy as int),
{
    let nx = x + dx;
    let ny = y + dy;
    if map.in_bounds(nx, ny) {
        let idx = map.get_index_at(nx, ny);
        d[idx]
    } else {
        INF_DIST
    }
}

/// Compute the shortest-path distance field from an in-bounds source over
/// the given blocking snapshot of the map.
pub fn compute_dists(map: &SpatialMap, src: usize) -> (d: Vec<u32>)
    requires
        map.wf(),
        src < map.area(),
    ensures
        d@ == path_dist(*map, map.blocked@, src as int),
        d@.len() == map.area(),
{
    let area = map.blocked.len();
    let mut d: Vec<u32> = Vec::new();
    let mut v: usize = 0;
    while v < area
        invariant
            v <= area,
            area == map.area(),
            d@.len() == v,
            forall|i: int|
                0 <= i < v ==> #[trigger] d@[i] == (if i == src {
                    0u32
                } else {
                    INF_DIST
                }),
        decreases area - v,
    {
        if v == src {
            d.push(0);
        } else {
            d.push(INF_DIST);
        }
        v += 1;
    }
    proof {
        assert(d@ =~= dist_k(*map, map.blocked@, src as int, 0));
    }
    let mut round: usize = 0;
    while round < area
        invariant
            round <= area,
            area == map.area(),
            map.wf(),
            src < map.area(),
            d@.len() == area,
            d@ == dist_k(*map, map.blocked@, src as int, round as int),
        decreases area - round,
    {
        let mut nd: Vec<u32> = Vec::new();
        let mut v2: usize = 0;
        while v2 < area
            invariant
                v2 <= area,
                area == map.area(),
                map.wf(),
                d@.len() == area,
                nd@.len() == v2,
                forall|i: int|
                    0 <= i < v2 ==> #[trigger] nd@[i] == relax(*map, map.blocked@, d@)[i],
            decreases area - v2,
        {
            proof {
                crate::map::lemma_idx_decompose(
                    map.width as int,
                    map.height as int,
                    v2 as int,
                );
            }
            let (x, y) = map.get_xy_from_idx(v2);
            proof {
                assert(x as int == v2 as int % (map.width as int) && y as int == v2 as int / (
                map.width as int)) by {
                    crate::map::lemma_rowmajor(map.width as int, x as int, y as int);
                }
            }
            if map.blocked[v2] {
                nd.push(d[v2]);
            } else {
                let m = nbr_min_exec(map, &d, x, y);
                let cur = d[v2];
                if m < INF_DIST && m < cur && m + 1 < cur {
                    nd.push(m + 1);
                } else {
                    nd.push(cur);
                }
            }
            v2 += 1;
        }
        proof {
            assert(nd@ =~= relax(*map, map.blocked@, d@));
        }
        d = nd;
        round += 1;
    }
    d
}


/// The direction, in the fixed scan order, whose neighbour first attains
/// the minimum recorded distance.
pub open spec fn best_dir(map: SpatialMap, d: Seq<u32>, x: int, y: int) -> (int, int) {
    let m = nbr_min(map, d, x, y);
    if nbr_dist(map, d, x, y, -1, 0) == m {
        (-1int, 0int)
    } else if nbr_dist(map, d, x, y, 1, 0) == m {
        (1int, 0int)
    } else if nbr_dist(map, d, x, y, 0, -1) == m {
        (0int, -1int)
    } else if nbr_dist(map, d, x, y, 0, 1) == m {
        (0int, 1int)
    } else if nbr_dist(map, d, x, y, -1, -1) == m {
        (-1int, -1int)
    } else if nbr_dist(map, d, x, y, 1, -1) == m {
        (1int, -1int)
    } else if nbr_dist(map, d, x, y, -1, 1) == m {
        (-1int, 1int)
    } else {
        (1int, 1int)
    }
}

/// Find the smallest recorded neighbour distance of `(x, y)` and the
/// first direction that attains it.
pub fn best_neighbor(map: &SpatialMap, d: &Vec<u32>, x: i32, y: i32) -> (r: (u32, i32, i32))
    requires
        map.wf(),
        d@.len() == map.area(),
        map.in_bounds_spec(x as int, y as int),
    ensures
        r.0 == nbr_min(*map, d@, x as int, y as int),
        r.1 == best_dir(*map, d@, x as int, y as int).0,
        r.2 == best_dir(*map, d@, x as int, y as int).1,
        r.0 < INF_DIST ==> map.in_bounds_spec(x + r.1, y + r.2),
{
    let mut acc: u32 = nbr_one(map, d, x, y, -1, 0);
    let mut bx: i32 = -1;
    let mut by: i32 = 0;
    let mut cand: u32;
    cand = nbr_one(map, d, x, y, 1, 0);
    if cand < acc {
        acc = cand;
        bx = 1;
        by = 0;
    }
    cand = nbr_one(map, d, x, y, 0, -1);
    if cand < acc {
        acc = cand;
        bx = 0;
        by = -1;
    }
    cand = nbr_one(map, d, x, y, 0, 1);
    if cand < acc {
        acc = cand;
        bx = 0;
        by = 1;
    }
    cand = nbr_one(map, d, x, y, -1, -1);
    if cand < acc {
        acc = cand;
        bx = -1;
        by = -1;
    }
    cand = nbr_one(map, d, x, y, 1, -1);
    if cand < acc {
        acc = cand;
        bx = 1;
        by = -1;
    }
    cand = nbr_one(map, d, x, y, -1, 1);
    if cand < acc {
        acc = cand;
        bx = -1;
        by = 1;
    }
    cand = nbr_one(map, d, x, y, 1, 1);
    if cand < acc {
        acc = cand;
        bx = 1;
        by = 1;
    }
    (acc, bx, by)
}

} // verus!
