use vstd::prelude::*;
use vstd::seq_lib::*;
use crate::geom::{dist2, doubled_area, point_in_ring, Point, PolyView};
use crate::moves::{stitched_moves, travel_to, ChainView, Move};
use crate::slice::{
    chain_end, find_host, greedy_order, greedy_pick, lemma_greedy_pick_min,
    lemma_greedy_pick_range, nest_all,
};

verus! {

/// Number of moves the serialised tour spends before chain `i` starts.
pub open spec fn chain_offset(chains: Seq<ChainView>, i: int) -> int {
    stitched_moves(chains.take(i)).len() as int
}

/// Travel partition: in the serialised tour every chain is introduced by a
/// travel move to its start, and between travels the moves are exactly the
/// chain's own, which are continuous by construction. So every spatial
/// discontinuity of the tour happens on a travel move.
pub proof fn lemma_travel_partition(chains: Seq<ChainView>, i: int)
    requires
        0 <= i < chains.len(),
    ensures
        stitched_moves(chains)[chain_offset(chains, i)] == travel_to(chains[i].start),
        forall|t: int|
            0 <= t < chains[i].moves.len() ==> stitched_moves(chains)[chain_offset(chains, i) + 1
                + t] == chains[i].moves[t],
        0 <= chain_offset(chains, i),
        chain_offset(chains, i) + 1 + chains[i].moves.len() <= stitched_moves(chains).len(),
    decreases chains.len(),
{
    lemma_stitched_len(chains.take(i));
    if i == chains.len() - 1 {
        assert(chains.take(i) =~= chains.drop_last());
        assert(chains.last() == chains[i]);
    } else {
        lemma_travel_partition(chains.drop_last(), i);
        assert(chains.drop_last().take(i) =~= chains.take(i));
        assert(chains.drop_last()[i] == chains[i]);
        let pre = stitched_moves(chains.drop_last());
        assert forall|t: int| 0 <= t < chains[i].moves.len() implies stitched_moves(chains)[
            chain_offset(chains, i) + 1 + t
        ] == chains[i].moves[t] by {
            assert(chain_offset(chains, i) + 1 + t < pre.len()) by {
                lemma_stitched_prefix_len(chains.drop_last(), i);
            }
            assert(stitched_moves(chains)[chain_offset(chains, i) + 1 + t] == pre[chain_offset(
                chains,
                i,
            ) + 1 + t]);
        }
        assert(stitched_moves(chains)[chain_offset(chains, i)] == pre[chain_offset(chains, i)])
            by {
            lemma_stitched_prefix_len(chains.drop_last(), i);
        }
    }
}

proof fn lemma_stitched_len(chains: Seq<ChainView>)
    ensures
        stitched_moves(chains).len() >= 0,
    decreases chains.len(),
{
    if chains.len() > 0 {
        lemma_stitched_len(chains.drop_last());
    }
}

proof fn lemma_stitched_prefix_len(chains: Seq<ChainView>, i: int)
    requires
        0 <= i < chains.len(),
    ensures
        chain_offset(chains, i) + 1 + chains[i].moves.len() <= stitched_moves(chains).len(),
    decreases chains.len(),
{
    if i == chains.len() - 1 {
        assert(chains.take(i) =~= chains.drop_last());
    } else {
        lemma_stitched_prefix_len(chains.drop_last(), i);
        assert(chains.drop_last().take(i) =~= chains.take(i));
        assert(chains.drop_last()[i] == chains[i]);
    }
}

/// Chain continuity: a ring chain starts at the ring's first vertex, each
/// move ends on the next vertex of the ring and the last returns to the
/// first, so consecutive moves share endpoints by construction; and none
/// of its moves is a travel, so the chain has no spatial jump that is not
/// labelled as one.
pub proof fn lemma_chain_continuity(ring: Seq<Point>, kind: crate::moves::MoveType, width: u64)
    requires
        ring.len() >= 1,
        kind != crate::moves::MoveType::Travel,
    ensures
        crate::moves::ring_chain_view(ring, kind, width).start == ring[0],
        crate::moves::ring_chain_view(ring, kind, width).moves.len() == ring.len(),
        forall|j: int|
            0 <= j < ring.len() ==> #[trigger] crate::moves::ring_chain_view(
                ring,
                kind,
                width,
            ).moves[j].end == ring[if j + 1 == ring.len() {
                0int
            } else {
                j + 1
            }],
        forall|j: int|
            0 <= j < ring.len() ==> #[trigger] crate::moves::ring_chain_view(
                ring,
                kind,
                width,
            ).moves[j].move_type != crate::moves::MoveType::Travel,
{
}

/// Determinism: every stage's contract pins its output as a mathematical
/// function of its input, so two results of the same stage on the same
/// input are one and the same move sequence.
pub proof fn lemma_determinism(a: Seq<Move>, b: Seq<Move>, ext: Seq<Point>, ints: Seq<Seq<Point>>, width: u64, pct: u64)
    requires
        a == crate::scanfill::sparse_fill_moves_rings(ext, ints, width, pct),
        b == crate::scanfill::sparse_fill_moves_rings(ext, ints, width, pct),
    ensures
        a == b,
{
}

/// Nearest-neighbour locality: the serialisation order opens with the
/// chain whose start is nearest to the head position (earliest on a tie),
/// and the rest of the order is the same greedy choice from the remaining
/// chains, starting at the chosen chain's end. Applied inductively this
/// says no unvisited chain was nearer than the one chosen at any step.
pub proof fn lemma_nearest_neighbour(rem: Seq<ChainView>, p: Point)
    requires
        rem.len() >= 1,
    ensures
        greedy_order(rem, p).len() == rem.len(),
        greedy_order(rem, p)[0] == rem[greedy_pick(rem, p)],
        forall|i: int|
            0 <= i < rem.len() ==> dist2(p, greedy_order(rem, p)[0].start) <= dist2(
                p,
                #[trigger] rem[i].start,
            ),
        greedy_order(rem, p).skip(1) == greedy_order(
            rem.remove(greedy_pick(rem, p)),
            chain_end(rem[greedy_pick(rem, p)]),
        ),
    decreases rem.len(),
{
    lemma_greedy_pick_range(rem, p);
    lemma_greedy_pick_min(rem, p);
    let j = greedy_pick(rem, p);
    lemma_greedy_order_len(rem.remove(j), chain_end(rem[j]));
    assert(greedy_order(rem, p).skip(1) =~= greedy_order(rem.remove(j), chain_end(rem[j])));
}

pub proof fn lemma_greedy_order_len(rem: Seq<ChainView>, p: Point)
    ensures
        greedy_order(rem, p).len() == rem.len(),
    decreases rem.len(),
{
    if rem.len() > 0 {
        lemma_greedy_pick_range(rem, p);
        lemma_greedy_order_len(rem.remove(greedy_pick(rem, p)), chain_end(rem[greedy_pick(rem, p)]));
    }
}

/// Even-odd membership of a point in a region: inside some polygon's
/// exterior and in none of that polygon's holes.
pub open spec fn poly_contains(pv: PolyView, p: Point) -> bool {
    &&& point_in_ring(pv.exterior, p)
    &&& forall|h: int| 0 <= h < pv.interiors.len() ==> !point_in_ring(#[trigger] pv.interiors[h], p)
}

pub open spec fn region_contains(region: Seq<PolyView>, p: Point) -> bool {
    exists|i: int| 0 <= i < region.len() && poly_contains(#[trigger] region[i], p)
}

pub open spec fn region_subset(a: Seq<PolyView>, b: Seq<PolyView>) -> bool {
    forall|p: Point| region_contains(a, p) ==> region_contains(b, p)
}

/// Monotone shrink: the remaining area after every shell pass is a subset
/// of the layer's main region, provided each offset the caller computed
/// shrank its input (each region in the chain is a subset of the one
/// before it, which is what a negative offset produces).
pub proof fn lemma_monotone_shrink(regions: Seq<Seq<PolyView>>)
    requires
        regions.len() >= 1,
        forall|i: int|
            0 <= i < regions.len() - 1 ==> region_subset(
                #[trigger] regions[i + 1],
                regions[i],
            ),
    ensures
        region_subset(regions.last(), regions[0]),
    decreases regions.len(),
{
    if regions.len() > 1 {
        lemma_monotone_shrink(regions.drop_last());
        assert forall|i: int| 0 <= i < regions.drop_last().len() - 1 implies region_subset(
            #[trigger] regions.drop_last()[i + 1],
            regions.drop_last()[i],
        ) by {
            assert(regions.drop_last()[i + 1] == regions[i + 1]);
            assert(regions.drop_last()[i] == regions[i]);
        }
        assert(region_subset(regions[regions.len() - 2], regions[0]));
        assert(region_subset(regions[regions.len() - 2 + 1], regions[regions.len() - 2]));
        assert(regions[regions.len() - 1] == regions.last());
    }
}

/// Whether a scanline at height `y` strictly crosses the edge: its bottom
/// endpoint is strictly below and its top strictly above. This is exactly
/// the condition under which the scanline fill treats the edge as active.
pub open spec fn crossing(e: crate::scanfill::Edge, y: int) -> bool {
    e.bottom.y < y < e.top.y
}

pub open spec fn crossings_upto(r: Seq<Point>, y: int, n: int) -> int
    decreases n,
{
    if n <= 0 {
        0
    } else {
        crossings_upto(r, y, n - 1) + if crossing(crate::scanfill::ring_edges(r)[n - 1], y) {
            1int
        } else {
            0int
        }
    }
}

/// How many edges of the closed ring a scanline at `y` crosses.
pub open spec fn crossings(r: Seq<Point>, y: int) -> int {
    crossings_upto(r, y, r.len() as int)
}

pub open spec fn below(r: Seq<Point>, i: int, y: int) -> bool {
    r[i].y < y
}

proof fn lemma_crossing_is_flip(r: Seq<Point>, y: int, i: int)
    requires
        0 <= i < r.len(),
        forall|q: int| 0 <= q < r.len() ==> #[trigger] r[q].y != y,
    ensures
        crossing(crate::scanfill::ring_edges(r)[i], y) == (below(r, i, y) != below(
            r,
            if i + 1 == r.len() {
                0int
            } else {
                i + 1
            },
            y,
        )),
{
    let j = if i + 1 == r.len() {
        0int
    } else {
        i + 1
    };
    assert(crate::scanfill::ring_edges(r)[i] == crate::scanfill::canon_edge(r[i], r[j]));
    assert(r[i].y != y && r[j].y != y);
}

proof fn lemma_flip_parity(r: Seq<Point>, y: int, k: int)
    requires
        0 <= k <= r.len() - 1,
        forall|q: int| 0 <= q < r.len() ==> #[trigger] r[q].y != y,
    ensures
        crossings_upto(r, y, k) % 2 == (if below(r, 0, y) == below(r, k, y) {
            0int
        } else {
            1int
        }),
    decreases k,
{
    if k > 0 {
        lemma_flip_parity(r, y, k - 1);
        lemma_crossing_is_flip(r, y, k - 1);
    }
}

/// Even crossings: a scanline that passes through no vertex of a closed
/// ring crosses an even number of its edges. (When the scanline meets a
/// vertex exactly, the half-open activation convention can leave an odd
/// count, which the fill tolerates by pairing greedily.)
pub proof fn lemma_even_crossings(r: Seq<Point>, y: int)
    requires
        r.len() >= 1,
        forall|q: int| 0 <= q < r.len() ==> #[trigger] r[q].y != y,
    ensures
        crossings(r, y) % 2 == 0,
{
    let n = r.len() as int;
    lemma_flip_parity(r, y, n - 1);
    lemma_crossing_is_flip(r, y, n - 1);
    assert(crossings(r, y) == crossings_upto(r, y, n - 1) + if crossing(
        crate::scanfill::ring_edges(r)[n - 1],
        y,
    ) {
        1int
    } else {
        0int
    });
}

proof fn lemma_pair_moves_on_line(t: Seq<i64>, y: i64, sparse: bool, lc: bool, w: u64)
    ensures
        forall|j: int|
            0 <= j < crate::scanfill::pair_moves(t, y, sparse, lc, w).len()
                ==> #[trigger] crate::scanfill::pair_moves(t, y, sparse, lc, w)[j].end.y == y,
    decreases t.len(),
{
    if t.len() >= 2 {
        lemma_pair_moves_on_line(t.skip(2), y, sparse, lc, w);
    }
}

proof fn lemma_line_moves_on_line(
    xs: Seq<i64>,
    y: i64,
    orient: bool,
    lc: bool,
    sparse: bool,
    w: u64,
)
    ensures
        forall|j: int|
            0 <= j < crate::scanfill::line_moves(xs, y, orient, lc, sparse, w).len()
                ==> #[trigger] crate::scanfill::line_moves(xs, y, orient, lc, sparse, w)[j].end.y
                == y,
{
    if xs.len() > 0 {
        let t = if orient {
            xs
        } else {
            xs.reverse()
        };
        lemma_pair_moves_on_line(t, y, sparse, lc, w);
    }
}

proof fn lemma_pop_count_stop(lines: Seq<crate::scanfill::Edge>, y: int)
    requires
        crate::scanfill::pop_count(lines, y) < lines.len(),
    ensures
        lines[lines.len() - crate::scanfill::pop_count(lines, y) - 1].bottom.y >= y,
    decreases lines.len(),
{
    if lines.len() > 0 && lines.last().bottom.y < y {
        let k2 = crate::scanfill::pop_count(lines.drop_last(), y);
        assert(crate::scanfill::pop_count(lines, y) == 1 + k2);
        crate::scanfill::lemma_pop_count_le(lines.drop_last(), y);
        lemma_pop_count_stop(lines.drop_last(), y);
        assert(lines.drop_last()[lines.drop_last().len() - k2 - 1] == lines[lines.len()
            - crate::scanfill::pop_count(lines, y) - 1]);
    }
}

/// Every scanline the raster emits lies on the lattice of multiples of
/// `dy`, when the first scanline does: the scan only ever advances by
/// whole steps of `dy`.
pub proof fn lemma_scan_lattice(
    lines: Seq<crate::scanfill::Edge>,
    active: Seq<crate::scanfill::Edge>,
    y: int,
    orient: bool,
    dy: int,
    sparse: bool,
    width: u64,
)
    requires
        1 <= dy <= 100_000_000_000,
        y % dy == 0,
        -(crate::geom::FILL_LIMIT as int) <= y <= 2 * crate::geom::FILL_LIMIT as int
            + 100_000_000_000,
        crate::scanfill::all_edges_ok(lines),
    ensures
        forall|j: int|
            0 <= j < crate::scanfill::scan_moves(lines, active, y, orient, dy, sparse, width).len()
                ==> #[trigger] crate::scanfill::scan_moves(
                lines,
                active,
                y,
                orient,
                dy,
                sparse,
                width,
            )[j].end.y as int % dy == 0,
    decreases lines.len(), crate::scanfill::scan_measure(lines, y, dy),
{
    let ms = crate::scanfill::scan_moves(lines, active, y, orient, dy, sparse, width);
    if lines.len() == 0 {
    } else {
        crate::scanfill::lemma_pop_count_le(lines, y);
        let k = crate::scanfill::pop_count(lines, y);
        let lines2 = lines.take(lines.len() - k);
        if lines2.len() == 0 {
        } else {
            let active2 = active + lines.skip(lines.len() - k).reverse();
            let act = crate::scanfill::retire_act(active2, y);
            let xs = crate::scanfill::sort_asc(crate::scanfill::xs_of(act, y));
            lemma_line_moves_on_line(xs, y as i64, orient, k > 0, sparse, width);
            // the next scanline stays in range and on the lattice
            lemma_pop_count_stop(lines, y);
            assert(lines2.last() == lines[lines.len() - k - 1]);
            assert(crate::scanfill::edge_ok(lines[lines.len() - k - 1]));
            assert(lines2.last().bottom.y >= y);
            vstd::arithmetic::div_mod::lemma_mod_add_multiples_vanish(y, dy);
            assert((y + dy) % dy == 0);
            assert(crate::scanfill::all_edges_ok(lines2)) by {
                assert forall|q: int| 0 <= q < lines2.len() implies crate::scanfill::edge_ok(
                    #[trigger] lines2[q],
                ) by {
                    assert(lines2[q] == lines[q]);
                }
            }
            if k == 0 {
                let b = lines.last().bottom.y;
                vstd::arithmetic::div_mod::lemma_div_pos_is_pos(b - y, dy);
                if b >= y + dy {
                    vstd::arithmetic::div_mod::lemma_div_plus_one((b - y - dy), dy);
                    vstd::arithmetic::div_mod::lemma_div_pos_is_pos(b - y - dy, dy);
                }
                assert(lines2 =~= lines);
            }
            lemma_scan_lattice(lines2, act, y + dy, !orient, dy, sparse, width);
            assert(ms == crate::scanfill::line_moves(xs, y as i64, orient, k > 0, sparse, width)
                + crate::scanfill::scan_moves(lines2, act, y + dy, !orient, dy, sparse, width));
        }
    }
}

/// Sparse-lattice alignment: every scanline of a sparse raster lies on the
/// global lattice of multiples of the scan spacing `width * 100 / pct`,
/// wherever the polygon sits.
pub proof fn lemma_sparse_lattice(ext: Seq<Point>, ints: Seq<Seq<Point>>, width: u64, pct: u64)
    requires
        crate::geom::valid_ring(ext),
        crate::geom::ring_in(ext, crate::geom::FILL_LIMIT as int),
        forall|i: int|
            0 <= i < ints.len() ==> crate::geom::ring_in(
                #[trigger] ints[i],
                crate::geom::FILL_LIMIT as int,
            ),
        1 <= width <= crate::geom::WIDTH_LIMIT,
        1 <= pct <= 100,
    ensures
        ({
            let dy = width as int * 100 / pct as int;
            forall|j: int|
                0 <= j < crate::scanfill::sparse_fill_moves_rings(ext, ints, width, pct).len()
                    ==> #[trigger] crate::scanfill::sparse_fill_moves_rings(
                    ext,
                    ints,
                    width,
                    pct,
                )[j].end.y as int % dy == 0
        }),
{
    let dy = width as int * 100 / pct as int;
    let raw = crate::scanfill::edges_of(ext, ints);
    assert(crate::scanfill::all_edges_ok(raw)) by {
        assert forall|i: int| 0 <= i < raw.len() implies crate::scanfill::edge_ok(
            #[trigger] raw[i],
        ) by {
            let re = crate::scanfill::ring_edges(ext);
            if i < re.len() {
                assert(raw[i] == re[i]);
            } else {
                crate::scanfill::lemma_edges_of_rings_ok(ints, ints.len() as int, i - re.len());
            }
        }
    }
    let edges = crate::scanfill::sort_desc(raw);
    crate::scanfill::lemma_sort_desc_all(raw, |e: crate::scanfill::Edge| crate::scanfill::edge_ok(e));
    assert(edges.len() == raw.len() >= 3);
    // spacing bounds
    vstd::arithmetic::div_mod::lemma_div_is_ordered(pct as int, width as int * 100, pct as int);
    vstd::arithmetic::div_mod::lemma_div_by_self(pct as int);
    vstd::arithmetic::div_mod::lemma_div_is_ordered_by_denominator(width as int * 100, 1, pct as int);
    vstd::arithmetic::div_mod::lemma_div_basics(width as int * 100);
    assert(1 <= dy <= 100_000_000_000);
    // the first scanline sits on the lattice
    let a = edges.last().bottom.y as int;
    assert(crate::scanfill::edge_ok(edges[edges.len() - 1]));
    let y0 = crate::scanfill::snap_up(a, dy);
    if a >= 0 {
        let q = (a + dy - 1) / dy;
        vstd::arithmetic::div_mod::lemma_mod_multiples_basic(q, dy);
        vstd::arithmetic::div_mod::lemma_div_pos_is_pos(a + dy - 1, dy);
        vstd::arithmetic::div_mod::lemma_fundamental_div_mod(a + dy - 1, dy);
        vstd::arithmetic::mul::lemma_mul_is_commutative(q, dy);
        assert(y0 == q * dy);
        assert(a <= y0 < a + dy);
    } else {
        let q = (-a) / dy;
        vstd::arithmetic::div_mod::lemma_mod_multiples_basic(-q, dy);
        vstd::arithmetic::mul::lemma_mul_unary_negation(q, dy);
        vstd::arithmetic::mul::lemma_mul_is_commutative(q, dy);
        vstd::arithmetic::div_mod::lemma_div_pos_is_pos(-a, dy);
        vstd::arithmetic::div_mod::lemma_fundamental_div_mod(-a, dy);
        assert(y0 == -(q * dy));
        assert(a <= y0 < a + dy);
    }
    assert(y0 % dy == 0);
    assert(a <= y0 < a + dy);
    lemma_scan_lattice(edges, Seq::empty(), y0, false, dy, true, width);
}

/// Ring orientation: every polygon the nesting construction produces has a
/// counter-clockwise exterior (positive signed area) and non-counter-
/// clockwise holes (signed area at most zero).
pub proof fn lemma_ring_orientation(sorted: Seq<Seq<Point>>, k: int)
    requires
        0 <= k,
        nest_all(sorted, k) is Some,
    ensures
        forall|i: int|
            0 <= i < nest_all(sorted, k)->Some_0.len() ==> doubled_area(
                #[trigger] nest_all(sorted, k)->Some_0[i].exterior,
            ) > 0,
        forall|i: int, h: int|
            0 <= i < nest_all(sorted, k)->Some_0.len() && 0 <= h < nest_all(
                sorted,
                k,
            )->Some_0[i].interiors.len() ==> doubled_area(
                #[trigger] nest_all(sorted, k)->Some_0[i].interiors[h],
            ) <= 0,
    decreases k,
{
    if k > 0 {
        lemma_ring_orientation(sorted, k - 1);
        let acc = nest_all(sorted, k - 1)->Some_0;
        let r = sorted[k - 1];
        let acc2 = nest_all(sorted, k)->Some_0;
        if doubled_area(r) > 0 {
            assert forall|i: int| 0 <= i < acc2.len() implies doubled_area(
                #[trigger] acc2[i].exterior,
            ) > 0 by {
                if i < acc.len() {
                    assert(acc2[i] == acc[i]);
                }
            }
            assert forall|i: int, h: int|
                0 <= i < acc2.len() && 0 <= h < acc2[i].interiors.len() implies doubled_area(
                #[trigger] acc2[i].interiors[h],
            ) <= 0 by {
                if i < acc.len() {
                    assert(acc2[i] == acc[i]);
                }
            }
        } else {
            let j = find_host(acc, r[0]);
            crate::slice::lemma_find_host_range(acc, r[0]);
            assert forall|i: int| 0 <= i < acc2.len() implies doubled_area(
                #[trigger] acc2[i].exterior,
            ) > 0 by {
                if i != j {
                    assert(acc2[i] == acc[i]);
                } else {
                    assert(acc2[i].exterior == acc[j].exterior);
                }
            }
            assert forall|i: int, h: int|
                0 <= i < acc2.len() && 0 <= h < acc2[i].interiors.len() implies doubled_area(
                #[trigger] acc2[i].interiors[h],
            ) <= 0 by {
                if i != j {
                    assert(acc2[i] == acc[i]);
                } else {
                    assert(acc2[i].interiors == acc[j].interiors.push(r));
                    if h < acc[j].interiors.len() {
                        assert(acc2[i].interiors[h] == acc[j].interiors[h]);
                    } else {
                        assert(acc2[i].interiors[h] == r);
                    }
                }
            }
        }
    }
}

} // verus!

