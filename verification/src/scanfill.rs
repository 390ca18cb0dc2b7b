use vstd::prelude::*;
use vstd::seq_lib::*;
use vstd::arithmetic::div_mod::{lemma_div_pos_is_pos, lemma_div_plus_one, lemma_fundamental_div_mod};
use crate::geom::{
    div_trunc, lemma_div_trunc_bounds, lemma_mul_bounds, pt_in, poly_in, ring_in, ring_views,
    valid_polygon, valid_ring, Point, Polygon, FILL_LIMIT,
};
use crate::moves::{travel_to, Move, MoveChain, MoveType};
use crate::settings::{valid_settings, Settings};

verus! {

/// An oriented polygon edge canonicalised so that `bottom.y <= top.y`.
#[derive(Clone, Copy, PartialEq, Eq, Structural, Debug)]
pub struct Edge {
    pub bottom: Point,
    pub top: Point,
}

pub open spec fn edge_ok(e: Edge) -> bool {
    &&& e.bottom.y <= e.top.y
    &&& pt_in(e.bottom, FILL_LIMIT as int)
    &&& pt_in(e.top, FILL_LIMIT as int)
}

pub open spec fn all_edges_ok(s: Seq<Edge>) -> bool {
    forall|i: int| 0 <= i < s.len() ==> edge_ok(#[trigger] s[i])
}

pub open spec fn canon_edge(a: Point, b: Point) -> Edge {
    if a.y < b.y {
        Edge { bottom: a, top: b }
    } else {
        Edge { bottom: b, top: a }
    }
}

/// The edges of one closed ring, canonicalised by y.
pub open spec fn ring_edges(r: Seq<Point>) -> Seq<Edge> {
    Seq::new(
        r.len(),
        |i: int|
            canon_edge(
                r[i],
                r[if i + 1 == r.len() {
                    0int
                } else {
                    i + 1
                }],
            ),
    )
}

pub open spec fn edges_of_rings(rs: Seq<Seq<Point>>) -> Seq<Edge>
    decreases rs.len(),
{
    if rs.len() == 0 {
        Seq::empty()
    } else {
        edges_of_rings(rs.drop_last()) + ring_edges(rs.last())
    }
}

/// Every edge of a region given as rings: exterior first, then each hole.
pub open spec fn edges_of(ext: Seq<Point>, ints: Seq<Seq<Point>>) -> Seq<Edge> {
    ring_edges(ext) + edges_of_rings(ints)
}

/// Every edge of the polygon: exterior first, then each hole.
pub open spec fn poly_edges(p: Polygon) -> Seq<Edge> {
    edges_of(p.exterior@, ring_views(p.interiors@))
}

/// Append the canonicalised edges of one ring.
fn push_ring_edges(ring: &Vec<Point>, out: &mut Vec<Edge>)
    requires
        ring@.len() >= 1,
    ensures
        final(out)@ == old(out)@ + ring_edges(ring@),
{
    let n = ring.len();
    let mut i: usize = 0;
    while i < n
        invariant
            0 <= i <= n,
            n == ring@.len(),
            out@ =~= old(out)@ + ring_edges(ring@).take(i as int),
        decreases n - i,
    {
        let j = if i + 1 == n {
            0
        } else {
            i + 1
        };
        let a = ring[i];
        let b = ring[j];
        let e = if a.y < b.y {
            Edge { bottom: a, top: b }
        } else {
            Edge { bottom: b, top: a }
        };
        out.push(e);
        proof {
            assert(out@ =~= old(out)@ + ring_edges(ring@).take(i + 1));
        }
        i = i + 1;
    }
    proof {
        assert(ring_edges(ring@).take(n as int) =~= ring_edges(ring@));
    }
}

/// Collect every edge of the polygon, exterior then holes.
pub fn collect_edges(poly: &Polygon) -> (v: Vec<Edge>)
    requires
        valid_polygon(*poly),
        poly_in(*poly, FILL_LIMIT as int),
    ensures
        v@ == poly_edges(*poly),
        all_edges_ok(v@),
        v@.len() >= 3,
{
    let mut v: Vec<Edge> = Vec::new();
    push_ring_edges(&poly.exterior, &mut v);
    let m = poly.interiors.len();
    let mut k: usize = 0;
    while k < m
        invariant
            0 <= k <= m,
            m == poly.interiors@.len(),
            valid_polygon(*poly),
            poly_in(*poly, FILL_LIMIT as int),
            v@ =~= ring_edges(poly.exterior@) + edges_of_rings(
                ring_views(poly.interiors@).take(k as int),
            ),
        decreases m - k,
    {
        assert(valid_ring(ring_views(poly.interiors@)[k as int]));
        push_ring_edges(&poly.interiors[k], &mut v);
        proof {
            assert(ring_views(poly.interiors@).take(k + 1).drop_last() =~= ring_views(
                poly.interiors@,
            ).take(k as int));
            assert(v@ =~= ring_edges(poly.exterior@) + edges_of_rings(
                ring_views(poly.interiors@).take(k + 1),
            ));
        }
        k = k + 1;
    }
    proof {
        assert(ring_views(poly.interiors@).take(m as int) =~= ring_views(poly.interiors@));
        assert(v@ =~= poly_edges(*poly));
        assert forall|i: int| 0 <= i < v@.len() implies edge_ok(#[trigger] v@[i]) by {
            let pe = poly_edges(*poly);
            if i < ring_edges(poly.exterior@).len() {
                assert(pe[i] == ring_edges(poly.exterior@)[i]);
            } else {
                lemma_edges_of_rings_ok(ring_views(poly.interiors@), poly.interiors@.len() as int, i
                    - ring_edges(poly.exterior@).len());
            }
        }
    }
    v
}

/// Edges of well-bounded rings are well bounded.
pub proof fn lemma_edges_of_rings_ok(rs: Seq<Seq<Point>>, n: int, i: int)
    requires
        rs.len() == n,
        forall|k: int| 0 <= k < n ==> ring_in(#[trigger] rs[k], FILL_LIMIT as int),
        0 <= i < edges_of_rings(rs).len(),
    ensures
        edge_ok(edges_of_rings(rs)[i]),
    decreases n,
{
    if n > 0 {
        let pre = edges_of_rings(rs.drop_last());
        if i < pre.len() {
            lemma_edges_of_rings_ok(rs.drop_last(), n - 1, i);
        } else {
            let r = rs.last();
            assert(edges_of_rings(rs)[i] == ring_edges(r)[i - pre.len()]);
        }
    }
}

/// Stable insertion (from the back) keeping bottom y descending.
pub open spec fn insert_desc(s: Seq<Edge>, e: Edge) -> Seq<Edge>
    decreases s.len(),
{
    if s.len() == 0 {
        seq![e]
    } else if s.last().bottom.y >= e.bottom.y {
        s.push(e)
    } else {
        insert_desc(s.drop_last(), e).push(s.last())
    }
}

/// Stable insertion sort by bottom y, descending; the edge with the lowest
/// bottom ends up last, ready to be popped first.
pub open spec fn sort_desc(s: Seq<Edge>) -> Seq<Edge>
    decreases s.len(),
{
    if s.len() == 0 {
        Seq::empty()
    } else {
        insert_desc(sort_desc(s.drop_last()), s.last())
    }
}

proof fn lemma_insert_desc_split(s: Seq<Edge>, e: Edge, m: int)
    requires
        0 <= m <= s.len(),
        forall|i: int| m <= i < s.len() ==> #[trigger] s[i].bottom.y < e.bottom.y,
        m > 0 ==> s[m - 1].bottom.y >= e.bottom.y,
    ensures
        insert_desc(s, e) == s.take(m) + seq![e] + s.skip(m),
    decreases s.len(),
{
    if s.len() == 0 {
        assert(insert_desc(s, e) =~= s.take(m) + seq![e] + s.skip(m));
    } else if s.last().bottom.y >= e.bottom.y {
        assert(m == s.len());
        assert(insert_desc(s, e) =~= s.take(m) + seq![e] + s.skip(m));
    } else {
        lemma_insert_desc_split(s.drop_last(), e, m);
        assert(insert_desc(s.drop_last(), e).push(s.last()) =~= s.take(m) + seq![e] + s.skip(m));
    }
}

proof fn lemma_insert_desc_all(s: Seq<Edge>, e: Edge, p: spec_fn(Edge) -> bool)
    requires
        forall|i: int| 0 <= i < s.len() ==> p(#[trigger] s[i]),
        p(e),
    ensures
        insert_desc(s, e).len() == s.len() + 1,
        forall|i: int| 0 <= i < s.len() + 1 ==> p(#[trigger] insert_desc(s, e)[i]),
    decreases s.len(),
{
    if s.len() == 0 {
    } else if s.last().bottom.y >= e.bottom.y {
    } else {
        lemma_insert_desc_all(s.drop_last(), e, p);
    }
}

pub proof fn lemma_sort_desc_all(s: Seq<Edge>, p: spec_fn(Edge) -> bool)
    requires
        forall|i: int| 0 <= i < s.len() ==> p(#[trigger] s[i]),
    ensures
        sort_desc(s).len() == s.len(),
        forall|i: int| 0 <= i < s.len() ==> p(#[trigger] sort_desc(s)[i]),
    decreases s.len(),
{
    if s.len() > 0 {
        lemma_sort_desc_all(s.drop_last(), p);
        lemma_insert_desc_all(sort_desc(s.drop_last()), s.last(), p);
    }
}

fn insert_edge_desc(v: &mut Vec<Edge>, e: Edge)
    ensures
        final(v)@ == insert_desc(old(v)@, e),
{
    let mut m = v.len();
    while m > 0 && v[m - 1].bottom.y < e.bottom.y
        invariant
            0 <= m <= v@.len(),
            v@ == old(v)@,
            forall|i: int| m <= i < v@.len() ==> #[trigger] v@[i].bottom.y < e.bottom.y,
        decreases m,
    {
        m = m - 1;
    }
    proof {
        lemma_insert_desc_split(v@, e, m as int);
    }
    v.insert(m, e);
    proof {
        assert(v@ =~= old(v)@.take(m as int) + seq![e] + old(v)@.skip(m as int));
    }
}

/// Sort the edge list by bottom y descending (stable), so that it can be
/// used as a stack whose top is the next edge to activate.
pub fn sort_edges(edges: &Vec<Edge>) -> (r: Vec<Edge>)
    ensures
        r@ == sort_desc(edges@),
{
    let mut out: Vec<Edge> = Vec::new();
    let n = edges.len();
    let mut i: usize = 0;
    while i < n
        invariant
            0 <= i <= n,
            n == edges@.len(),
            out@ == sort_desc(edges@.take(i as int)),
        decreases n - i,
    {
        insert_edge_desc(&mut out, edges[i]);
        proof {
            assert(edges@.take(i + 1).drop_last() =~= edges@.take(i as int));
            assert(edges@.take(i + 1).last() == edges@[i as int]);
        }
        i = i + 1;
    }
    proof {
        assert(edges@.take(n as int) =~= edges@);
    }
    out
}

/// Ascending insertion for scanline crossings.
pub open spec fn insert_asc(s: Seq<i64>, x: i64) -> Seq<i64>
    decreases s.len(),
{
    if s.len() == 0 {
        seq![x]
    } else if s.last() <= x {
        s.push(x)
    } else {
        insert_asc(s.drop_last(), x).push(s.last())
    }
}

pub open spec fn sort_asc(s: Seq<i64>) -> Seq<i64>
    decreases s.len(),
{
    if s.len() == 0 {
        Seq::empty()
    } else {
        insert_asc(sort_asc(s.drop_last()), s.last())
    }
}

proof fn lemma_insert_asc_split(s: Seq<i64>, x: i64, m: int)
    requires
        0 <= m <= s.len(),
        forall|i: int| m <= i < s.len() ==> #[trigger] s[i] > x,
        m > 0 ==> s[m - 1] <= x,
    ensures
        insert_asc(s, x) == s.take(m) + seq![x] + s.skip(m),
    decreases s.len(),
{
    if s.len() == 0 {
        assert(insert_asc(s, x) =~= s.take(m) + seq![x] + s.skip(m));
    } else if s.last() <= x {
        assert(m == s.len());
        assert(insert_asc(s, x) =~= s.take(m) + seq![x] + s.skip(m));
    } else {
        lemma_insert_asc_split(s.drop_last(), x, m);
        assert(insert_asc(s.drop_last(), x).push(s.last()) =~= s.take(m) + seq![x] + s.skip(m));
    }
}

proof fn lemma_insert_asc_all(s: Seq<i64>, x: i64, lo: int, hi: int)
    requires
        forall|i: int| 0 <= i < s.len() ==> lo <= #[trigger] s[i] <= hi,
        lo <= x <= hi,
    ensures
        insert_asc(s, x).len() == s.len() + 1,
        forall|i: int| 0 <= i < s.len() + 1 ==> lo <= #[trigger] insert_asc(s, x)[i] <= hi,
    decreases s.len(),
{
    if s.len() == 0 {
    } else if s.last() <= x {
    } else {
        lemma_insert_asc_all(s.drop_last(), x, lo, hi);
    }
}

pub proof fn lemma_sort_asc_all(s: Seq<i64>, lo: int, hi: int)
    requires
        forall|i: int| 0 <= i < s.len() ==> lo <= #[trigger] s[i] <= hi,
    ensures
        sort_asc(s).len() == s.len(),
        forall|i: int| 0 <= i < s.len() ==> lo <= #[trigger] sort_asc(s)[i] <= hi,
    decreases s.len(),
{
    if s.len() > 0 {
        lemma_sort_asc_all(s.drop_last(), lo, hi);
        lemma_insert_asc_all(sort_asc(s.drop_last()), s.last(), lo, hi);
    }
}

fn insert_x_asc(v: &mut Vec<i64>, x: i64)
    ensures
        final(v)@ == insert_asc(old(v)@, x),
{
    let mut m = v.len();
    while m > 0 && v[m - 1] > x
        invariant
            0 <= m <= v@.len(),
            v@ == old(v)@,
            forall|i: int| m <= i < v@.len() ==> #[trigger] v@[i] > x,
        decreases m,
    {
        m = m - 1;
    }
    proof {
        lemma_insert_asc_split(v@, x, m as int);
    }
    v.insert(m, x);
    proof {
        assert(v@ =~= old(v)@.take(m as int) + seq![x] + old(v)@.skip(m as int));
    }
}

fn sort_xs(xs: &Vec<i64>) -> (r: Vec<i64>)
    ensures
        r@ == sort_asc(xs@),
{
    let mut out: Vec<i64> = Vec::new();
    let n = xs.len();
    let mut i: usize = 0;
    while i < n
        invariant
            0 <= i <= n,
            n == xs@.len(),
            out@ == sort_asc(xs@.take(i as int)),
        decreases n - i,
    {
        insert_x_asc(&mut out, xs[i]);
        proof {
            assert(xs@.take(i + 1).drop_last() =~= xs@.take(i as int));
            assert(xs@.take(i + 1).last() == xs@[i as int]);
        }
        i = i + 1;
    }
    proof {
        assert(xs@.take(n as int) =~= xs@);
    }
    out
}

/// How many edges at the end of the stack activate below scanline `y`.
pub open spec fn pop_count(lines: Seq<Edge>, y: int) -> int
    decreases lines.len(),
{
    if lines.len() > 0 && lines.last().bottom.y < y {
        1 + pop_count(lines.drop_last(), y)
    } else {
        0
    }
}

pub proof fn lemma_pop_count_le(lines: Seq<Edge>, y: int)
    ensures
        0 <= pop_count(lines, y) <= lines.len(),
    decreases lines.len(),
{
    if lines.len() > 0 && lines.last().bottom.y < y {
        lemma_pop_count_le(lines.drop_last(), y);
    }
}

/// Drop from the active list every edge whose top does not rise above `y`.
pub open spec fn retire_act(s: Seq<Edge>, y: int) -> Seq<Edge>
    decreases s.len(),
{
    if s.len() == 0 {
        Seq::empty()
    } else {
        let r = retire_act(s.drop_last(), y);
        if s.last().top.y > y {
            r.push(s.last())
        } else {
            r
        }
    }
}

/// x-coordinate where the edge crosses the horizontal line at `y`,
/// rounded toward the bottom endpoint.
pub open spec fn x_at(e: Edge, y: int) -> int {
    e.bottom.x + div_trunc((y - e.bottom.y) * (e.top.x - e.bottom.x), e.top.y - e.bottom.y)
}

pub open spec fn x_at64(e: Edge, y: int) -> i64 {
    x_at(e, y) as i64
}

pub open spec fn xs_of(s: Seq<Edge>, y: int) -> Seq<i64> {
    Seq::new(s.len(), |i: int| x_at64(s[i], y))
}

fn x_at_exec(e: &Edge, y: i64) -> (r: i64)
    requires
        edge_ok(*e),
        e.bottom.y < y < e.top.y,
        -3 * FILL_LIMIT as int <= y <= 3 * FILL_LIMIT as int,
    ensures
        r == x_at64(*e, y as int),
        -3 * FILL_LIMIT as int <= r <= 3 * FILL_LIMIT as int,
{
    let den: i128 = e.top.y as i128 - e.bottom.y as i128;
    let t: i128 = y as i128 - e.bottom.y as i128;
    let dx: i128 = e.top.x as i128 - e.bottom.x as i128;
    proof {
        lemma_mul_bounds(t as int, dx as int, 8 * FILL_LIMIT as int, 8 * FILL_LIMIT as int);
        assert(-((2 * FILL_LIMIT as int) * den) <= t * dx <= (2 * FILL_LIMIT as int) * den)
            by (nonlinear_arith)
            requires
                0 < t <= den,
                -2 * FILL_LIMIT as int <= dx <= 2 * FILL_LIMIT as int,
        ;
    }
    let num: i128 = t * dx;
    let q: i128 = crate::geom::div_trunc_i128(num, den);
    proof {
        lemma_div_trunc_bounds(num as int, den as int, 2 * FILL_LIMIT as int);
    }
    (e.bottom.x as i128 + q) as i64
}

/// Moves of the crossing pairs of one scanline, traversed in the order of
/// `t`. The first move of a pair deposits in sparse mode when no new edge
/// activated on this line, otherwise it travels; the second always deposits.
pub open spec fn pair_moves(
    t: Seq<i64>,
    y: i64,
    sparse: bool,
    line_change: bool,
    width: u64,
) -> Seq<Move>
    decreases t.len(),
{
    if t.len() < 2 {
        Seq::empty()
    } else {
        seq![
            if sparse && !line_change {
                Move { end: Point { x: t[0], y }, move_type: MoveType::SolidInfill, width }
            } else {
                Move { end: Point { x: t[0], y }, move_type: MoveType::Travel, width: 0 }
            },
            Move { end: Point { x: t[1], y }, move_type: MoveType::SolidInfill, width },
        ] + pair_moves(t.skip(2), y, sparse, line_change, width)
    }
}

/// Moves emitted for one scanline: a travel to the first crossing, then the
/// crossing pairs in ascending x when `orient` is set, descending otherwise.
pub open spec fn line_moves(
    xs: Seq<i64>,
    y: i64,
    orient: bool,
    line_change: bool,
    sparse: bool,
    width: u64,
) -> Seq<Move> {
    if xs.len() == 0 {
        Seq::empty()
    } else {
        let t = if orient {
            xs
        } else {
            xs.reverse()
        };
        seq![travel_to(Point { x: xs[0], y })] + pair_moves(t, y, sparse, line_change, width)
    }
}

pub open spec fn scan_measure(lines: Seq<Edge>, y: int, dy: int) -> int {
    if lines.len() > 0 && lines.last().bottom.y >= y {
        (lines.last().bottom.y - y) / dy + 1
    } else {
        0
    }
}

/// The full scanline raster: activate edges below `y`, stop when the stack
/// empties, retire edges the line has passed, pair the sorted crossings,
/// then advance by `dy` with the traversal direction flipped.
pub open spec fn scan_moves(
    lines: Seq<Edge>,
    active: Seq<Edge>,
    y: int,
    orient: bool,
    dy: int,
    sparse: bool,
    width: u64,
) -> Seq<Move>
    decreases lines.len(), scan_measure(lines, y, dy),
        when dy >= 1
        via scan_moves_dec
{
    if lines.len() == 0 {
        Seq::empty()
    } else {
        let k = pop_count(lines, y);
        let lines2 = lines.take(lines.len() - k);
        let active2 = active + lines.skip(lines.len() - k).reverse();
        if lines2.len() == 0 {
            Seq::empty()
        } else {
            let act = retire_act(active2, y);
            let xs = sort_asc(xs_of(act, y));
            line_moves(xs, #[verifier::truncate] (y as i64), orient, k > 0, sparse, width) + scan_moves(
                lines2,
                act,
                y + dy,
                !orient,
                dy,
                sparse,
                width,
            )
        }
    }
}

/// Emit the moves of one scanline.
fn emit_line(
    xs: &Vec<i64>,
    y: i64,
    orient: bool,
    line_change: bool,
    sparse: bool,
    width: u64,
    moves: &mut Vec<Move>,
)
    requires
        forall|i: int|
            0 <= i < xs@.len() ==> -3 * FILL_LIMIT as int <= #[trigger] xs@[i] <= 3 * FILL_LIMIT
                as int,
        -3 * FILL_LIMIT as int <= y <= 3 * FILL_LIMIT as int,
    ensures
        final(moves)@ == old(moves)@ + line_moves(xs@, y, orient, line_change, sparse, width),
        forall|j: int|
            old(moves)@.len() <= j < final(moves)@.len() ==> pt_in(
                #[trigger] final(moves)@[j].end,
                3 * FILL_LIMIT as int,
            ),
{
    if xs.len() == 0 {
        proof {
            assert(old(moves)@ + line_moves(xs@, y, orient, line_change, sparse, width) =~= moves@);
        }
        return ;
    }
    let n = xs.len();
    moves.push(Move { end: Point { x: xs[0], y }, move_type: MoveType::Travel, width: 0 });
    let mut t: Vec<i64> = Vec::new();
    if orient {
        let mut i: usize = 0;
        while i < n
            invariant
                0 <= i <= n,
                n == xs@.len(),
                t@ =~= xs@.take(i as int),
            decreases n - i,
        {
            t.push(xs[i]);
            proof {
                assert(t@ =~= xs@.take(i + 1));
            }
            i = i + 1;
        }
        proof {
            assert(t@ =~= xs@);
        }
    } else {
        let mut i: usize = 0;
        while i < n
            invariant
                0 <= i <= n,
                n == xs@.len(),
                t@ =~= xs@.reverse().take(i as int),
            decreases n - i,
        {
            t.push(xs[n - 1 - i]);
            proof {
                assert(t@ =~= xs@.reverse().take(i + 1));
            }
            i = i + 1;
        }
        proof {
            assert(t@ =~= xs@.reverse());
        }
    }
    let ghost trav = if orient {
        xs@
    } else {
        xs@.reverse()
    };
    let ghost base = moves@;
    let mut idx: usize = 0;
    while idx < t.len() && idx + 1 < t.len()
        invariant
            t@ == trav,
            trav.len() == xs@.len(),
            forall|i: int|
                0 <= i < trav.len() ==> -3 * FILL_LIMIT as int <= #[trigger] trav[i] <= 3
                    * FILL_LIMIT as int,
            -3 * FILL_LIMIT as int <= y <= 3 * FILL_LIMIT as int,
            0 <= idx <= trav.len(),
            base.len() <= moves@.len(),
            moves@.take(base.len() as int) == base,
            moves@.skip(base.len() as int) + pair_moves(
                trav.skip(idx as int),
                y,
                sparse,
                line_change,
                width,
            ) == pair_moves(trav, y, sparse, line_change, width),
            forall|j: int|
                base.len() <= j < moves@.len() ==> pt_in(
                    #[trigger] moves@[j].end,
                    3 * FILL_LIMIT as int,
                ),
        decreases t@.len() - idx,
    {
        let a = t[idx];
        let b = t[idx + 1];
        let ghost pre = moves@;
        if sparse && !line_change {
            moves.push(Move { end: Point { x: a, y }, move_type: MoveType::SolidInfill, width });
        } else {
            moves.push(Move { end: Point { x: a, y }, move_type: MoveType::Travel, width: 0 });
        }
        moves.push(Move { end: Point { x: b, y }, move_type: MoveType::SolidInfill, width });
        proof {
            let rest = trav.skip(idx as int);
            assert(rest.len() >= 2);
            assert(rest[0] == trav[idx as int]);
            assert(rest[1] == trav[idx + 1]);
            assert(rest.skip(2) =~= trav.skip(idx + 2));
            assert(moves@ =~= pre + pair_moves(rest, y, sparse, line_change, width).take(2));
            assert(moves@.take(base.len() as int) =~= base);
            assert(moves@.skip(base.len() as int) + pair_moves(
                trav.skip(idx + 2),
                y,
                sparse,
                line_change,
                width,
            ) =~= pair_moves(trav, y, sparse, line_change, width));
        }
        idx = idx + 2;
    }
    proof {
        assert(pair_moves(trav.skip(idx as int), y, sparse, line_change, width) =~= Seq::<
            Move,
        >::empty());
        assert(moves@ =~= moves@.take(base.len() as int) + moves@.skip(base.len() as int));
        assert(moves@ =~= old(moves)@ + line_moves(xs@, y, orient, line_change, sparse, width));
    }
}

/// Run the scan loop to completion, appending every emitted move.
fn scan_run(
    lines: Vec<Edge>,
    active: Vec<Edge>,
    y: i64,
    orient: bool,
    dy: i64,
    sparse: bool,
    width: u64,
    moves: &mut Vec<Move>,
)
    requires
        1 <= dy <= 100_000_000_000,
        -FILL_LIMIT as int <= y <= 2 * FILL_LIMIT as int + 100_000_000_000,
        all_edges_ok(lines@),
        all_edges_ok(active@),
        forall|i: int| 0 <= i < active@.len() ==> #[trigger] active@[i].bottom.y < y,
    ensures
        final(moves)@ == old(moves)@ + scan_moves(
            lines@,
            active@,
            y as int,
            orient,
            dy as int,
            sparse,
            width,
        ),
        forall|j: int|
            old(moves)@.len() <= j < final(moves)@.len() ==> pt_in(
                #[trigger] final(moves)@[j].end,
                3 * FILL_LIMIT as int,
            ),
    decreases lines@.len(), scan_measure(lines@, y as int, dy as int),
{
    let ghost lines0 = lines@;
    let ghost active0 = active@;
    let mut lines = lines;
    let mut active = active;
    if lines.is_empty() {
        proof {
            assert(old(moves)@ + scan_moves(
                lines0,
                active0,
                y as int,
                orient,
                dy as int,
                sparse,
                width,
            ) =~= moves@);
        }
        return ;
    }
    let mut popped = false;
    while lines.len() > 0 && lines[lines.len() - 1].bottom.y < y
        invariant
            lines@.len() <= lines0.len(),
            lines@ =~= lines0.take(lines@.len() as int),
            active@ =~= active0 + lines0.skip(lines@.len() as int).reverse(),
            popped == (lines@.len() != lines0.len()),
            pop_count(lines0, y as int) == lines0.len() - lines@.len() + pop_count(
                lines@,
                y as int,
            ),
            all_edges_ok(lines0),
            all_edges_ok(active@),
            forall|i: int| 0 <= i < active@.len() ==> #[trigger] active@[i].bottom.y < y,
        decreases lines@.len(),
    {
        let ghost lpre = lines@;
        let e = lines.pop().unwrap();
        active.push(e);
        popped = true;
        proof {
            assert(lines@ =~= lpre.drop_last());
            assert(lines@ =~= lines0.take(lines@.len() as int));
            let m = lines@.len() as int;
            assert(lines0.skip(m).reverse() =~= lines0.skip(m + 1).reverse().push(lines0[m]));
            assert(active@ =~= active0 + lines0.skip(m).reverse());
        }
    }
    proof {
        assert(pop_count(lines@, y as int) == 0);
        lemma_pop_count_le(lines0, y as int);
    }
    let ghost k = pop_count(lines0, y as int);
    proof {
        assert(lines@ =~= lines0.take(lines0.len() - k));
        assert(active@ =~= active0 + lines0.skip(lines0.len() - k).reverse());
    }
    if lines.is_empty() {
        proof {
            assert(scan_moves(lines0, active0, y as int, orient, dy as int, sparse, width)
                =~= Seq::<Move>::empty());
            assert(old(moves)@ + scan_moves(
                lines0,
                active0,
                y as int,
                orient,
                dy as int,
                sparse,
                width,
            ) =~= moves@);
        }
        return ;
    }
    // retire edges the scan has passed
    let mut kept: Vec<Edge> = Vec::new();
    let na = active.len();
    let mut i: usize = 0;
    while i < na
        invariant
            0 <= i <= na,
            na == active@.len(),
            all_edges_ok(active@),
            forall|q: int| 0 <= q < active@.len() ==> #[trigger] active@[q].bottom.y < y,
            kept@ == retire_act(active@.take(i as int), y as int),
            all_edges_ok(kept@),
            forall|q: int|
                0 <= q < kept@.len() ==> #[trigger] kept@[q].bottom.y < y && kept@[q].top.y > y,
        decreases na - i,
    {
        proof {
            assert(active@.take(i + 1).drop_last() =~= active@.take(i as int));
            assert(active@.take(i + 1).last() == active@[i as int]);
        }
        if active[i].top.y > y {
            kept.push(active[i]);
        }
        i = i + 1;
    }
    proof {
        assert(active@.take(na as int) =~= active@);
    }
    // crossings
    let nk = kept.len();
    let mut xs: Vec<i64> = Vec::new();
    let mut j: usize = 0;
    while j < nk
        invariant
            0 <= j <= nk,
            nk == kept@.len(),
            all_edges_ok(kept@),
            forall|q: int|
                0 <= q < kept@.len() ==> #[trigger] kept@[q].bottom.y < y && kept@[q].top.y > y,
            -3 * FILL_LIMIT as int <= y <= 3 * FILL_LIMIT as int,
            xs@ =~= xs_of(kept@, y as int).take(j as int),
            forall|q: int|
                0 <= q < xs@.len() ==> -3 * FILL_LIMIT as int <= #[trigger] xs@[q] <= 3
                    * FILL_LIMIT as int,
        decreases nk - j,
    {
        let x = x_at_exec(&kept[j], y);
        xs.push(x);
        proof {
            assert(xs@ =~= xs_of(kept@, y as int).take(j + 1));
        }
        j = j + 1;
    }
    proof {
        assert(xs@ =~= xs_of(kept@, y as int));
    }
    let sorted = sort_xs(&xs);
    proof {
        lemma_sort_asc_all(xs@, -3 * FILL_LIMIT as int, 3 * FILL_LIMIT as int);
    }
    emit_line(&sorted, y, orient, popped, sparse, width, moves);
    let ghost lines1 = lines@;
    let ghost kept1 = kept@;
    let ghost moves1 = moves@;
    proof {
        // the next scanline still starts within range
        assert(lines1.len() > 0);
        assert(lines1.last() == lines0[lines1.len() - 1]);
        assert(edge_ok(lines0[lines1.len() - 1]));
        assert(lines1.last().bottom.y >= y);
        // termination measure shrinks
        if k == 0 {
            let b = lines1.last().bottom.y;
            lemma_div_pos_is_pos(b - y, dy as int);
            if b >= y + dy {
                lemma_div_plus_one((b - y - dy), dy as int);
                lemma_div_pos_is_pos(b - y - dy, dy as int);
            }
            assert(lines1 =~= lines0);
        }
    }
    scan_run(lines, kept, y + dy, !orient, dy, sparse, width, moves);
    proof {
        assert(moves@ == moves1 + scan_moves(
            lines1,
            kept1,
            y + dy,
            !orient,
            dy as int,
            sparse,
            width,
        ));
        assert(scan_moves(lines0, active0, y as int, orient, dy as int, sparse, width)
            == line_moves(
            sort_asc(xs_of(kept1, y as int)),
            y,
            orient,
            k > 0,
            sparse,
            width,
        ) + scan_moves(lines1, kept1, y + dy, !orient, dy as int, sparse, width));
        assert(moves@ =~= old(moves)@ + scan_moves(
            lines0,
            active0,
            y as int,
            orient,
            dy as int,
            sparse,
            width,
        ));
    }
}

/// The smallest multiple of `d` that is not below `a`: sparse scanlines
/// snap to a global lattice so adjacent layers align.
pub open spec fn snap_up(a: int, d: int) -> int
    recommends
        d >= 1,
{
    if a >= 0 {
        ((a + d - 1) / d) * d
    } else {
        -((-a) / d) * d
    }
}

fn snap_up_exec(a: i64, d: i64) -> (r: i64)
    requires
        1 <= d <= 100_000_000_000,
        -FILL_LIMIT as int <= a <= FILL_LIMIT as int,
    ensures
        r == snap_up(a as int, d as int),
        a <= r < a + d,
{
    if a >= 0 {
        let q: i64 = (a + d - 1) / d;
        proof {
            lemma_div_pos_is_pos(a + d - 1, d as int);
            lemma_fundamental_div_mod(a + d - 1, d as int);
            lemma_mul_bounds(q as int, d as int, FILL_LIMIT as int + 100_000_000_000, 100_000_000_000);
        }
        let r128: i128 = q as i128 * d as i128;
        proof {
            vstd::arithmetic::mul::lemma_mul_is_commutative(q as int, d as int);
            assert(a <= r128 < a + d);
        }
        r128 as i64
    } else {
        let q: i64 = (-a) / d;
        proof {
            lemma_div_pos_is_pos(-a, d as int);
            lemma_fundamental_div_mod(-a, d as int);
            lemma_mul_bounds(q as int, d as int, FILL_LIMIT as int, 100_000_000_000);
        }
        let r128: i128 = -(q as i128 * d as i128);
        proof {
            vstd::arithmetic::mul::lemma_mul_is_commutative(q as int, d as int);
            vstd::arithmetic::mul::lemma_mul_unary_negation(q as int, d as int);
            assert(a <= r128 < a + d);
        }
        r128 as i64
    }
}

/// The moves of a dense raster of a region given as rings: scanlines every
/// `width`, starting half a width above the lowest vertex.
pub open spec fn solid_fill_moves_rings(ext: Seq<Point>, ints: Seq<Seq<Point>>, width: u64) -> Seq<
    Move,
> {
    let edges = sort_desc(edges_of(ext, ints));
    let y0 = edges.last().bottom.y + width as int / 2;
    scan_moves(edges, Seq::empty(), y0, false, width as int, false, width)
}

pub open spec fn solid_fill_moves(p: Polygon, width: u64) -> Seq<Move> {
    solid_fill_moves_rings(p.exterior@, ring_views(p.interiors@), width)
}

/// The moves of a sparse raster: scanlines every `width * 100 / pct`,
/// snapped to the global lattice.
pub open spec fn sparse_fill_moves_rings(
    ext: Seq<Point>,
    ints: Seq<Seq<Point>>,
    width: u64,
    pct: u64,
) -> Seq<Move> {
    let edges = sort_desc(edges_of(ext, ints));
    let dy = width as int * 100 / pct as int;
    let y0 = snap_up(edges.last().bottom.y as int, dy);
    scan_moves(edges, Seq::empty(), y0, false, dy, true, width)
}

pub open spec fn sparse_fill_moves(p: Polygon, width: u64, pct: u64) -> Seq<Move> {
    sparse_fill_moves_rings(p.exterior@, ring_views(p.interiors@), width, pct)
}

/// Dense horizontal raster fill of one polygon with holes. Returns the
/// boustrophedon chain, or nothing when no scanline crossed the region;
/// the chain starts at the first crossing of the first emitting scanline.
pub fn solid_fill_polygon(poly: &Polygon, settings: &Settings) -> (r: Option<MoveChain>)
    requires
        valid_polygon(*poly),
        poly_in(*poly, FILL_LIMIT as int),
        valid_settings(*settings),
    ensures
        ({
            let ms = solid_fill_moves(*poly, settings.layer_width);
            &&& (r is Some <==> ms.len() > 0)
            &&& (r is Some ==> r->Some_0@.moves == ms && r->Some_0@.start == ms[0].end)
        }),
        r is Some ==> r->Some_0@.moves.len() > 0 && forall|j: int|
            0 <= j < r->Some_0@.moves.len() ==> pt_in(
                #[trigger] r->Some_0@.moves[j].end,
                3 * FILL_LIMIT as int,
            ),
{
    let edges_raw = collect_edges(poly);
    let edges = sort_edges(&edges_raw);
    proof {
        lemma_sort_desc_all(edges_raw@, |e: Edge| edge_ok(e));
    }
    let min_y = edges[edges.len() - 1].bottom.y;
    let y0 = min_y + (settings.layer_width / 2) as i64;
    let mut ms: Vec<Move> = Vec::new();
    scan_run(
        edges,
        Vec::new(),
        y0,
        false,
        settings.layer_width as i64,
        false,
        settings.layer_width,
        &mut ms,
    );
    if ms.len() == 0 {
        None
    } else {
        let start = ms[0].end;
        Some(MoveChain { start_point: start, moves: ms })
    }
}

/// Sparse horizontal raster fill of one polygon with holes, at
/// `fill_percentage` percent density.
pub fn partial_fill_polygon(poly: &Polygon, settings: &Settings, fill_percentage: u64) -> (r:
    Option<MoveChain>)
    requires
        valid_polygon(*poly),
        poly_in(*poly, FILL_LIMIT as int),
        valid_settings(*settings),
        1 <= fill_percentage <= 100,
    ensures
        ({
            let ms = sparse_fill_moves(*poly, settings.layer_width, fill_percentage);
            &&& (r is Some <==> ms.len() > 0)
            &&& (r is Some ==> r->Some_0@.moves == ms && r->Some_0@.start == ms[0].end)
        }),
        r is Some ==> r->Some_0@.moves.len() > 0 && forall|j: int|
            0 <= j < r->Some_0@.moves.len() ==> pt_in(
                #[trigger] r->Some_0@.moves[j].end,
                3 * FILL_LIMIT as int,
            ),
{
    let edges_raw = collect_edges(poly);
    let edges = sort_edges(&edges_raw);
    proof {
        lemma_sort_desc_all(edges_raw@, |e: Edge| edge_ok(e));
    }
    let w100: u64 = settings.layer_width * 100;
    let dy: i64 = (w100 / fill_percentage) as i64;
    proof {
        vstd::arithmetic::div_mod::lemma_div_is_ordered(
            fill_percentage as int,
            w100 as int,
            fill_percentage as int,
        );
        vstd::arithmetic::div_mod::lemma_div_by_self(fill_percentage as int);
        vstd::arithmetic::div_mod::lemma_div_nonincreasing(w100 as int, fill_percentage as int);
    }
    let min_y = edges[edges.len() - 1].bottom.y;
    let y0 = snap_up_exec(min_y, dy);
    let mut ms: Vec<Move> = Vec::new();
    scan_run(edges, Vec::new(), y0, false, dy, true, settings.layer_width, &mut ms);
    if ms.len() == 0 {
        None
    } else {
        let start = ms[0].end;
        Some(MoveChain { start_point: start, moves: ms })
    }
}

#[via_fn]
proof fn scan_moves_dec(
    lines: Seq<Edge>,
    active: Seq<Edge>,
    y: int,
    orient: bool,
    dy: int,
    sparse: bool,
    width: u64,
) {
    lemma_pop_count_le(lines, y);
    if lines.len() > 0 {
        let k = pop_count(lines, y);
        let lines2 = lines.take(lines.len() - k);
        if lines2.len() > 0 {
            if k == 0 {
                assert(lines2 =~= lines);
                if lines.last().bottom.y < y {
                    lemma_pop_count_le(lines.drop_last(), y);
                    assert(pop_count(lines, y) >= 1);
                }
                assert(lines.last().bottom.y >= y);
                let b = lines.last().bottom.y;
                lemma_div_pos_is_pos(b - y, dy);
                if b >= y + dy {
                    lemma_div_plus_one((b - y - dy), dy);
                    assert((b - y) / dy == (b - (y + dy)) / dy + 1);
                    lemma_div_pos_is_pos(b - y - dy, dy);
                }
            }
        }
    }
}

} // verus!
