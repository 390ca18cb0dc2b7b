use vstd::prelude::*;
use vstd::seq_lib::*;
use crate::geom::{
    doubled_area, doubled_area_exec, dist2, dist2_exec, point_in_ring, point_in_ring_exec, poly_in,
    pt_in, ring_in, ring_views, rot_cos, rot_sin, rotate_polygon_exec, rotate_pt, rot_ring,
    rot_rings, valid_polygon, valid_ring, Point, Polygon, PolyView, COORD_LIMIT, COS_120,
    FILL_LIMIT, ROT_SCALE, SIN_120,
};
use crate::moves::{
    chain_ok, collapse_move_chains, stitched_moves, views_of, ChainView, Move, MoveChain,
    MoveType,
};
use crate::perimeter::polygon_chains;
use crate::scanfill::{
    partial_fill_polygon, solid_fill_polygon, solid_fill_moves_rings, sparse_fill_moves,
};
use crate::settings::{valid_settings, Settings, SlicerError};

verus! {

/// A region: disjoint polygons with holes.
pub open spec fn region_ok(polys: Seq<Polygon>) -> bool {
    forall|i: int|
        0 <= i < polys.len() ==> valid_polygon(#[trigger] polys[i]) && poly_in(
            polys[i],
            COORD_LIMIT as int,
        )
}

pub open spec fn poly_views(polys: Seq<Polygon>) -> Seq<PolyView> {
    polys.map_values(|p: Polygon| p@)
}

/// One shell pass, with its geometry precomputed by the caller: `inset` is
/// the contour the wall is drawn on (the region shrunk by half a width) and
/// `shrunk` the region left after shrinking by a further half width.
pub struct ShellPass {
    pub inset: Vec<Polygon>,
    pub shrunk: Vec<Polygon>,
}

pub open spec fn passes_ok(passes: Seq<ShellPass>) -> bool {
    forall|i: int|
        0 <= i < passes.len() ==> region_ok(#[trigger] passes[i].inset@) && region_ok(
            passes[i].shrunk@,
        )
}

/// The mutable per-layer workspace: the layer's region, the part not yet
/// covered by walls, and the toolpath chains produced so far.
pub struct Slice {
    pub main: Vec<Polygon>,
    pub remaining: Vec<Polygon>,
    pub chains: Vec<MoveChain>,
}

pub open spec fn slice_wf(s: Slice) -> bool {
    &&& region_ok(s.main@)
    &&& region_ok(s.remaining@)
    &&& forall|i: int| 0 <= i < s.chains@.len() ==> chain_ok(#[trigger] s.chains@[i]@)
}

fn copy_points(v: &Vec<Point>) -> (r: Vec<Point>)
    ensures
        r@ == v@,
{
    let n = v.len();
    let mut r: Vec<Point> = Vec::new();
    let mut i: usize = 0;
    while i < n
        invariant
            0 <= i <= n,
            n == v@.len(),
            r@ =~= v@.take(i as int),
        decreases n - i,
    {
        r.push(v[i]);
        proof {
            assert(r@ =~= v@.take(i + 1));
        }
        i = i + 1;
    }
    proof {
        assert(r@ =~= v@);
    }
    r
}

fn copy_polygon(p: &Polygon) -> (r: Polygon)
    ensures
        r@ =~~= p@,
        r.exterior@ == p.exterior@,
        ring_views(r.interiors@) =~~= ring_views(p.interiors@),
{
    let ext = copy_points(&p.exterior);
    let m = p.interiors.len();
    let mut ints: Vec<Vec<Point>> = Vec::new();
    let mut i: usize = 0;
    while i < m
        invariant
            0 <= i <= m,
            m == p.interiors@.len(),
            ring_views(ints@) =~~= ring_views(p.interiors@).take(i as int),
        decreases m - i,
    {
        let rr = copy_points(&p.interiors[i]);
        proof {
            assert(rr@ == p.interiors@[i as int]@);
        }
        let ghost pre = ints@;
        ints.push(rr);
        proof {
            assert(ring_views(ints@) =~= ring_views(pre).push(rr@));
            assert(ring_views(ints@) =~~= ring_views(p.interiors@).take(i + 1));
        }
        i = i + 1;
    }
    proof {
        assert(ring_views(ints@) =~~= ring_views(p.interiors@));
    }
    Polygon { exterior: ext, interiors: ints }
}

fn copy_region(polys: &Vec<Polygon>) -> (r: Vec<Polygon>)
    ensures
        poly_views(r@) =~~= poly_views(polys@),
        r@.len() == polys@.len(),
        region_ok(polys@) ==> region_ok(r@),
{
    let n = polys.len();
    let mut r: Vec<Polygon> = Vec::new();
    let mut i: usize = 0;
    while i < n
        invariant
            0 <= i <= n,
            n == polys@.len(),
            r@.len() == i,
            poly_views(r@) =~~= poly_views(polys@).take(i as int),
            region_ok(polys@) ==> region_ok(r@),
        decreases n - i,
    {
        let q = copy_polygon(&polys[i]);
        proof {
            if region_ok(polys@) {
                assert(valid_polygon(polys@[i as int]) && poly_in(
                    polys@[i as int],
                    COORD_LIMIT as int,
                ));
            }
        }
        let ghost pre = r@;
        r.push(q);
        proof {
            assert(poly_views(r@) =~= poly_views(pre).push(q@));
            assert(poly_views(r@) =~~= poly_views(polys@).take(i + 1));
        }
        i = i + 1;
    }
    proof {
        assert(poly_views(r@) =~~= poly_views(polys@));
    }
    r
}

/// Chains of every polygon of an inset region, in order.
pub open spec fn pass_chains(polys: Seq<Polygon>, kind: MoveType, width: u64) -> Seq<ChainView>
    decreases polys.len(),
{
    if polys.len() == 0 {
        Seq::empty()
    } else {
        pass_chains(polys.drop_last(), kind, width) + polygon_chains(polys.last(), kind, width)
    }
}

/// Trace one wall contour: a chain for every ring of every polygon of the
/// inset, outer-perimeter moves on the first pass, inner on the rest.
pub fn inset_polygon(inset: &Vec<Polygon>, outer: bool, width: u64) -> (chains: Vec<MoveChain>)
    requires
        region_ok(inset@),
    ensures
        ({
            let kind = if outer {
                MoveType::OuterPerimeter
            } else {
                MoveType::InnerPerimeter
            };
            views_of(chains@) =~~= pass_chains(inset@, kind, width)
        }),
        forall|i: int| 0 <= i < chains@.len() ==> chain_ok(#[trigger] chains@[i]@),
{
    let kind = if outer {
        MoveType::OuterPerimeter
    } else {
        MoveType::InnerPerimeter
    };
    let mut chains: Vec<MoveChain> = Vec::new();
    let n = inset.len();
    let mut i: usize = 0;
    while i < n
        invariant
            0 <= i <= n,
            n == inset@.len(),
            region_ok(inset@),
            views_of(chains@) =~~= pass_chains(inset@.take(i as int), kind, width),
            forall|q: int| 0 <= q < chains@.len() ==> chain_ok(#[trigger] chains@[q]@),
        decreases n - i,
    {
        let ghost prev = chains@;
        crate::perimeter::polygon_into_chains(&inset[i], kind, width, &mut chains);
        proof {
            assert(inset@.take(i + 1).drop_last() =~= inset@.take(i as int));
            assert(inset@.take(i + 1).last() == inset@[i as int]);
            assert(views_of(chains@) =~~= pass_chains(inset@.take(i + 1), kind, width));
            assert forall|q: int| 0 <= q < chains@.len() implies chain_ok(
                #[trigger] chains@[q]@,
            ) by {
                if q < prev.len() {
                    assert(views_of(chains@)[q] == views_of(prev)[q]);
                    assert(chains@[q]@ == prev[q]@);
                }
            }
        }
        i = i + 1;
    }
    proof {
        assert(inset@.take(n as int) =~= inset@);
    }
    chains
}

/// Chains of the shell passes from index `i` on: the pass at index 0 is the
/// only outer perimeter.
pub open spec fn shell_chains_from(passes: Seq<ShellPass>, i: int, width: u64) -> Seq<ChainView>
    decreases passes.len() - i,
{
    if i < 0 || i >= passes.len() {
        Seq::empty()
    } else {
        pass_chains(
            passes[i].inset@,
            if i == 0 {
                MoveType::OuterPerimeter
            } else {
                MoveType::InnerPerimeter
            },
            width,
        ) + shell_chains_from(passes, i + 1, width)
    }
}

impl Slice {
    /// Wrap one closed counter-clockwise loop as a layer region; the whole
    /// region is initially uncovered and no chains exist yet.
    pub fn from_single_point_loop(points: Vec<Point>) -> (s: Slice)
        requires
            valid_ring(points@),
            ring_in(points@, COORD_LIMIT as int),
        ensures
            s.main@.len() == 1,
            s.main@[0]@.exterior == points@,
            s.main@[0]@.interiors.len() == 0,
            poly_views(s.remaining@) =~~= poly_views(s.main@),
            s.chains@.len() == 0,
            slice_wf(s),
    {
        let copy = copy_points(&points);
        let p1 = Polygon { exterior: points, interiors: Vec::new() };
        let p2 = Polygon { exterior: copy, interiors: Vec::new() };
        let mut main: Vec<Polygon> = Vec::new();
        main.push(p1);
        let mut remaining: Vec<Polygon> = Vec::new();
        remaining.push(p2);
        proof {
            assert(ring_views(main@[0].interiors@) =~= Seq::<Seq<Point>>::empty());
            assert(ring_views(remaining@[0].interiors@) =~= Seq::<Seq<Point>>::empty());
            assert(poly_views(remaining@) =~~= poly_views(main@));
        }
        Slice { main, remaining, chains: Vec::new() }
    }

    /// Draw the wall contours: one pass per element of `passes`, whose
    /// geometry (inset and twice-shrunk region) the caller computed by
    /// offsetting. Chains are appended pass by pass; `remaining` becomes the
    /// region left after the last pass.
    pub fn slice_perimeters_into_chains(
        &mut self,
        settings: &Settings,
        passes: Vec<ShellPass>,
    )
        requires
            slice_wf(*old(self)),
            passes_ok(passes@),
        ensures
            final(self).main == old(self).main,
            views_of(final(self).chains@) =~~= views_of(old(self).chains@) + shell_chains_from(
                passes@,
                0,
                settings.layer_width,
            ),
            passes@.len() == 0 ==> final(self).remaining == old(self).remaining,
            passes@.len() > 0 ==> final(self).remaining == passes@.last().shrunk,
            slice_wf(*final(self)),
    {
        let mut passes = passes;
        let n = passes.len();
        let mut i: usize = 0;
        let ghost passes0 = passes@;
        while i < n
            invariant
                0 <= i <= n,
                n == passes@.len(),
                passes@ == passes0,
                passes_ok(passes@),
                region_ok(self.main@),
                region_ok(self.remaining@),
                self.main == old(self).main,
                self.remaining == old(self).remaining,
                forall|q: int| 0 <= q < self.chains@.len() ==> chain_ok(#[trigger] self.chains@[q]@),
                views_of(self.chains@) + shell_chains_from(passes0, i as int, settings.layer_width)
                    =~~= views_of(old(self).chains@) + shell_chains_from(
                    passes0,
                    0,
                    settings.layer_width,
                ),
            decreases n - i,
        {
            let mut newc = inset_polygon(&passes[i].inset, i == 0, settings.layer_width);
            let ghost newv = views_of(newc@);
            let ghost w = settings.layer_width;
            let ghost kind = if i == 0 {
                MoveType::OuterPerimeter
            } else {
                MoveType::InnerPerimeter
            };
            proof {
                assert(newv =~~= pass_chains(passes0[i as int].inset@, kind, w));
                assert(shell_chains_from(passes0, i as int, w) =~~= pass_chains(
                    passes0[i as int].inset@,
                    kind,
                    w,
                ) + shell_chains_from(passes0, i + 1, w));
            }
            let ghost pre = self.chains@;
            self.chains.append(&mut newc);
            proof {
                assert(views_of(self.chains@) =~~= views_of(pre) + newv);
                assert(views_of(self.chains@) + shell_chains_from(passes0, i + 1, w)
                    =~~= views_of(pre) + shell_chains_from(passes0, i as int, w));
                assert(views_of(self.chains@) + shell_chains_from(passes0, i + 1, w)
                    =~~= views_of(old(self).chains@) + shell_chains_from(passes0, 0, w));
            }
            i = i + 1;
        }
        proof {
            assert(views_of(self.chains@) + shell_chains_from(
                passes0,
                n as int,
                settings.layer_width,
            ) =~~= views_of(self.chains@));
            assert(views_of(self.chains@) =~~= views_of(old(self).chains@) + shell_chains_from(
                passes0,
                0,
                settings.layer_width,
            ));
        }
        if passes.len() > 0 {
            let last = passes.pop().unwrap();
            proof {
                assert(last == passes0[passes0.len() - 1]);
                assert(region_ok(passes0[passes0.len() - 1].inset@) && region_ok(
                    passes0[passes0.len() - 1].shrunk@,
                ));
            }
            self.remaining = last.shrunk;
        }
    }
}

/// Rotate a chain rigidly about the origin.
fn rotate_chain(c: MoveChain, cc: i64, ss: i64) -> (r: MoveChain)
    requires
        pt_in(c.start_point, 12_000_000_000_000_000),
        forall|j: int|
            0 <= j < c.moves@.len() ==> pt_in(#[trigger] c.moves@[j].end, 12_000_000_000_000_000),
        -ROT_SCALE as int <= cc <= ROT_SCALE as int,
        -ROT_SCALE as int <= ss <= ROT_SCALE as int,
    ensures
        r@.start == rotate_pt(c.start_point, cc as int, ss as int),
        r@.moves.len() == c.moves@.len(),
        forall|j: int|
            0 <= j < c.moves@.len() ==> #[trigger] r@.moves[j] == (Move {
                end: rotate_pt(c.moves@[j].end, cc as int, ss as int),
                move_type: c.moves@[j].move_type,
                width: c.moves@[j].width,
            }),
        c.moves@.len() >= 1 ==> chain_ok(r@),
{
    let start = crate::geom::rotate_point_exec(c.start_point, cc, ss);
    let n = c.moves.len();
    let mut mv: Vec<Move> = Vec::new();
    let mut j: usize = 0;
    while j < n
        invariant
            0 <= j <= n,
            n == c.moves@.len(),
            forall|q: int|
                0 <= q < c.moves@.len() ==> pt_in(
                    #[trigger] c.moves@[q].end,
                    12_000_000_000_000_000,
                ),
            -ROT_SCALE as int <= cc <= ROT_SCALE as int,
            -ROT_SCALE as int <= ss <= ROT_SCALE as int,
            mv@.len() == j,
            forall|q: int|
                0 <= q < j ==> #[trigger] mv@[q] == (Move {
                    end: rotate_pt(c.moves@[q].end, cc as int, ss as int),
                    move_type: c.moves@[q].move_type,
                    width: c.moves@[q].width,
                }),
            forall|q: int| 0 <= q < j ==> pt_in(#[trigger] mv@[q].end, 24_000_000_000_000_000),
        decreases n - j,
    {
        let e = crate::geom::rotate_point_exec(c.moves[j].end, cc, ss);
        mv.push(Move { end: e, move_type: c.moves[j].move_type, width: c.moves[j].width });
        j = j + 1;
    }
    MoveChain { start_point: start, moves: mv }
}

/// The fill chain produced for one polygon of the remaining region.
///
/// For solid fill the polygon is rotated by 120 degrees times the layer
/// index, rastered, and the resulting chain rotated back; sparse fill
/// rasters the polygon in place at `pct` percent density.
pub open spec fn fill_chain_of(p: Polygon, solid: bool, k: int, width: u64, pct: u64) -> Option<
    ChainView,
> {
    if solid {
        let c = rot_cos(k);
        let s = rot_sin(k);
        let ms = solid_fill_moves_rings(
            rot_ring(p.exterior@, c, s),
            rot_rings(ring_views(p.interiors@), c, s),
            width,
        );
        if ms.len() == 0 {
            None
        } else {
            Some(
                ChainView {
                    start: rotate_pt(ms[0].end, c, -s),
                    moves: Seq::new(
                        ms.len(),
                        |j: int|
                            Move {
                                end: rotate_pt(ms[j].end, c, -s),
                                move_type: ms[j].move_type,
                                width: ms[j].width,
                            },
                    ),
                },
            )
        }
    } else {
        let ms = sparse_fill_moves(p, width, pct);
        if ms.len() == 0 {
            None
        } else {
            Some(ChainView { start: ms[0].end, moves: ms })
        }
    }
}

/// The fill chains of the polygons of `polys` from index `i` on, in order,
/// skipping polygons whose raster produced nothing.
pub open spec fn fill_chains_from(
    polys: Seq<Polygon>,
    i: int,
    solid: bool,
    k: int,
    width: u64,
    pct: u64,
) -> Seq<ChainView>
    decreases polys.len() - i,
{
    if i < 0 || i >= polys.len() {
        Seq::empty()
    } else {
        (match fill_chain_of(polys[i], solid, k, width, pct) {
            Some(c) => seq![c],
            None => Seq::empty(),
        }) + fill_chains_from(polys, i + 1, solid, k, width, pct)
    }
}

impl Slice {
    /// Fill every polygon still uncovered. Solid fill rotates each polygon
    /// by 120 degrees times the layer index before rastering and rotates
    /// the chain back, decorrelating raster direction between layers;
    /// sparse fill rasters in place at the configured density.
    pub fn fill_remaining_area(&mut self, settings: &Settings, solid: bool, layer_count: usize)
        requires
            slice_wf(*old(self)),
            valid_settings(*settings),
        ensures
            final(self).main == old(self).main,
            final(self).remaining == old(self).remaining,
            views_of(final(self).chains@) =~~= views_of(old(self).chains@) + fill_chains_from(
                old(self).remaining@,
                0,
                solid,
                (layer_count % 3) as int,
                settings.layer_width,
                settings.infill_percentage,
            ),
            slice_wf(*final(self)),
    {
        let k = layer_count % 3;
        let (cc, ss): (i64, i64) = if k == 0 {
            (ROT_SCALE, 0)
        } else if k == 1 {
            (COS_120, SIN_120)
        } else {
            (COS_120, -SIN_120)
        };
        proof {
            assert(cc == rot_cos(k as int) && ss == rot_sin(k as int));
        }
        let ghost pct = settings.infill_percentage;
        let ghost w = settings.layer_width;
        let n = self.remaining.len();
        let mut i: usize = 0;
        while i < n
            invariant
                0 <= i <= n,
                n == self.remaining@.len(),
                valid_settings(*settings),
                pct == settings.infill_percentage,
                w == settings.layer_width,
                cc == rot_cos(k as int) && ss == rot_sin(k as int),
                k == layer_count % 3,
                -ROT_SCALE as int <= cc <= ROT_SCALE as int,
                -ROT_SCALE as int <= ss <= ROT_SCALE as int,
                self.main == old(self).main,
                self.remaining == old(self).remaining,
                region_ok(self.remaining@),
                region_ok(self.main@),
                forall|q: int| 0 <= q < self.chains@.len() ==> chain_ok(#[trigger] self.chains@[q]@),
                views_of(self.chains@) + fill_chains_from(
                    self.remaining@,
                    i as int,
                    solid,
                    k as int,
                    w,
                    pct,
                ) =~~= views_of(old(self).chains@) + fill_chains_from(
                    old(self).remaining@,
                    0,
                    solid,
                    k as int,
                    w,
                    pct,
                ),
            decreases n - i,
        {
            let ghost p = self.remaining@[i as int];
            assert(valid_polygon(p) && poly_in(p, COORD_LIMIT as int));
            if solid {
                let rp = rotate_polygon_exec(&self.remaining[i], cc, ss);
                proof {
                    assert(ring_views(rp.interiors@) == rot_rings(
                        ring_views(p.interiors@),
                        cc as int,
                        ss as int,
                    ));
                }
                let opt = solid_fill_polygon(&rp, settings);
                match opt {
                    Some(chain) => {
                        proof {
                            assert(chain@.moves == solid_fill_moves_rings(
                                rot_ring(p.exterior@, cc as int, ss as int),
                                rot_rings(ring_views(p.interiors@), cc as int, ss as int),
                                w,
                            ));
                        }
                        let back = rotate_chain(chain, cc, -ss);
                        proof {
                            let mc = fill_chain_of(p, solid, k as int, w, pct)->Some_0;
                            assert(back@ =~~= mc);
                        }
                        let ghost pre = self.chains@;
                        self.chains.push(back);
                        proof {
                            assert(views_of(self.chains@) =~~= views_of(pre).push(back@));
                        }
                    },
                    None => {
                        proof {
                            assert(fill_chain_of(p, solid, k as int, w, pct) is None);
                        }
                    },
                }
            } else {
                let opt = partial_fill_polygon(&self.remaining[i], settings, settings.infill_percentage);
                match opt {
                    Some(chain) => {
                        proof {
                            let mc = fill_chain_of(p, solid, k as int, w, pct)->Some_0;
                            assert(chain@ =~~= mc);
                        }
                        let ghost pre = self.chains@;
                        self.chains.push(chain);
                        proof {
                            assert(views_of(self.chains@) =~~= views_of(pre).push(
                                self.chains@.last()@,
                            ));
                        }
                    },
                    None => {
                        proof {
                            assert(fill_chain_of(p, solid, k as int, w, pct) is None);
                        }
                    },
                }
            }
            i = i + 1;
        }
        proof {
            assert(fill_chains_from(self.remaining@, n as int, solid, k as int, w, pct) =~~= Seq::<
                ChainView,
            >::empty());
            assert(views_of(self.chains@) =~~= views_of(old(self).chains@) + fill_chains_from(
                old(self).remaining@,
                0,
                solid,
                k as int,
                w,
                pct,
            ));
        }
    }
}

/// Where a chain leaves the head after being traced.
pub open spec fn chain_end(c: ChainView) -> Point
    recommends
        c.moves.len() >= 1,
{
    c.moves.last().end
}

/// Index of the chain whose start is nearest to `p`; the earliest wins a
/// tie.
pub open spec fn greedy_pick(rem: Seq<ChainView>, p: Point) -> int
    decreases rem.len(),
{
    if rem.len() <= 1 {
        0
    } else {
        let j = greedy_pick(rem.drop_last(), p);
        if dist2(p, rem.last().start) < dist2(p, rem[j].start) {
            rem.len() - 1
        } else {
            j
        }
    }
}

pub proof fn lemma_greedy_pick_range(rem: Seq<ChainView>, p: Point)
    requires
        rem.len() >= 1,
    ensures
        0 <= greedy_pick(rem, p) < rem.len(),
    decreases rem.len(),
{
    if rem.len() > 1 {
        lemma_greedy_pick_range(rem.drop_last(), p);
    }
}

/// The picked chain is at least as near as every chain in the buffer.
pub proof fn lemma_greedy_pick_min(rem: Seq<ChainView>, p: Point)
    requires
        rem.len() >= 1,
    ensures
        forall|i: int|
            0 <= i < rem.len() ==> dist2(p, rem[greedy_pick(rem, p)].start) <= dist2(
                p,
                #[trigger] rem[i].start,
            ),
    decreases rem.len(),
{
    lemma_greedy_pick_range(rem, p);
    if rem.len() > 1 {
        lemma_greedy_pick_min(rem.drop_last(), p);
        lemma_greedy_pick_range(rem.drop_last(), p);
        assert forall|i: int| 0 <= i < rem.len() implies dist2(
            p,
            rem[greedy_pick(rem, p)].start,
        ) <= dist2(p, #[trigger] rem[i].start) by {
            if i < rem.len() - 1 {
                assert(rem.drop_last()[i] == rem[i]);
                assert(rem.drop_last()[greedy_pick(rem.drop_last(), p)] == rem[greedy_pick(
                    rem.drop_last(),
                    p,
                )]);
            }
        }
    }
}

/// Greedy nearest-neighbour serialisation order: repeatedly take the chain
/// whose start is nearest to the current head position.
pub open spec fn greedy_order(rem: Seq<ChainView>, p: Point) -> Seq<ChainView>
    decreases rem.len(),
    via greedy_order_dec
{
    if rem.len() == 0 {
        Seq::empty()
    } else {
        let j = greedy_pick(rem, p);
        seq![rem[j]] + greedy_order(rem.remove(j), chain_end(rem[j]))
    }
}

#[via_fn]
proof fn greedy_order_dec(rem: Seq<ChainView>, p: Point) {
    if rem.len() > 0 {
        lemma_greedy_pick_range(rem, p);
    }
}

/// The serialisation order of a chain buffer: the first chain seeds the
/// tour (the last chain taking its slot), then greedy nearest-neighbour.
pub open spec fn ordered_views(chains: Seq<ChainView>) -> Seq<ChainView>
    recommends
        chains.len() >= 1,
        chains[0].moves.len() >= 1,
{
    seq![chains[0]] + greedy_order(
        chains.update(0, chains.last()).drop_last(),
        chain_end(chains[0]),
    )
}

impl Slice {
    /// Serialise the chain buffer into one travel-stitched tour. Chains are
    /// ordered greedily: after the first, always the one whose start point
    /// is nearest to the current head position (earliest index on a tie),
    /// then each chain is preceded by a travel move to its start. The
    /// buffer is left empty.
    pub fn slice_into_commands(&mut self, settings: &Settings) -> (r: Option<MoveChain>)
        requires
            slice_wf(*old(self)),
        ensures
            final(self).chains@.len() == 0,
            final(self).main == old(self).main,
            final(self).remaining == old(self).remaining,
            r is Some <==> old(self).chains@.len() > 0,
            old(self).chains@.len() > 0 ==> {
                let ordered = ordered_views(views_of(old(self).chains@));
                &&& r->Some_0@.start == views_of(old(self).chains@)[0].start
                &&& r->Some_0@.moves == stitched_moves(ordered)
            },
            slice_wf(*final(self)),
    {
        if self.chains.is_empty() {
            return None;
        }
        let ghost chains0 = views_of(self.chains@);
        let ghost full = ordered_views(chains0);
        let first = self.chains.swap_remove(0);
        let mut ordered: Vec<MoveChain> = Vec::new();
        ordered.push(first);
        proof {
            assert(views_of(self.chains@) =~~= chains0.update(0, chains0.last()).drop_last());
            assert(views_of(ordered@) =~~= seq![chains0[0]]);
        }
        while !self.chains.is_empty()
            invariant
                ordered@.len() >= 1,
                forall|q: int| 0 <= q < self.chains@.len() ==> chain_ok(#[trigger] self.chains@[q]@),
                forall|q: int| 0 <= q < ordered@.len() ==> chain_ok(#[trigger] ordered@[q]@),
                views_of(ordered@) + greedy_order(
                    views_of(self.chains@),
                    chain_end(views_of(ordered@).last()),
                ) =~~= full,
                self.main == old(self).main,
                self.remaining == old(self).remaining,
            decreases self.chains@.len(),
        {
            let ghost rem = views_of(self.chains@);
            let oi = ordered.len() - 1;
            let ml = ordered[oi].moves.len();
            assert(chain_ok(ordered@[oi as int]@));
            let p = ordered[oi].moves[ml - 1].end;
            proof {
                assert(p == chain_end(views_of(ordered@).last()));
            }
            let n = self.chains.len();
            let mut best: usize = 0;
            assert(chain_ok(self.chains@[0]@));
            let mut bestd: i128 = dist2_exec(p, self.chains[0].start_point);
            let mut t: usize = 1;
            while t < n
                invariant
                    1 <= t <= n,
                    n == self.chains@.len(),
                    rem == views_of(self.chains@),
                    forall|q: int|
                        0 <= q < self.chains@.len() ==> chain_ok(#[trigger] self.chains@[q]@),
                    pt_in(p, crate::geom::CHAIN_LIMIT as int),
                    0 <= best < t,
                    best == greedy_pick(rem.take(t as int), p),
                    bestd == dist2(p, rem[best as int].start),
                decreases n - t,
            {
                assert(chain_ok(self.chains@[t as int]@));
                let d = dist2_exec(p, self.chains[t].start_point);
                proof {
                    assert(rem.take(t + 1).drop_last() =~= rem.take(t as int));
                    assert(rem.take(t + 1).last() == rem[t as int]);
                    lemma_greedy_pick_range(rem.take(t as int), p);
                }
                if d < bestd {
                    best = t;
                    bestd = d;
                }
                t = t + 1;
            }
            proof {
                assert(rem.take(n as int) =~= rem);
                lemma_greedy_pick_range(rem, p);
            }
            let c = self.chains.remove(best);
            ordered.push(c);
            proof {
                assert(views_of(self.chains@) =~~= rem.remove(best as int));
                assert(views_of(ordered@).last() == rem[best as int]);
                assert(views_of(ordered@) =~~= views_of(ordered@).drop_last().push(
                    rem[best as int],
                ));
                assert(greedy_order(rem, p) =~~= seq![rem[best as int]] + greedy_order(
                    rem.remove(best as int),
                    chain_end(rem[best as int]),
                ));
                assert(views_of(ordered@) + greedy_order(
                    views_of(self.chains@),
                    chain_end(views_of(ordered@).last()),
                ) =~~= full);
            }
        }
        proof {
            assert(greedy_order(
                views_of(self.chains@),
                chain_end(views_of(ordered@).last()),
            ) =~~= Seq::<ChainView>::empty());
            assert(views_of(ordered@) =~~= full);
        }
        let r = collapse_move_chains(&ordered);
        proof {
            assert(r is Some);
            assert(r->Some_0@.start == full[0].start);
            assert(stitched_moves(views_of(ordered@)) == stitched_moves(full));
            crate::moves::lemma_stitched_ok(views_of(ordered@));
        }
        r
    }
}

/// Stable insertion keeping doubled signed area descending.
pub open spec fn insert_ring_desc(s: Seq<Seq<Point>>, r: Seq<Point>) -> Seq<Seq<Point>>
    decreases s.len(),
{
    if s.len() == 0 {
        seq![r]
    } else if doubled_area(s.last()) >= doubled_area(r) {
        s.push(r)
    } else {
        insert_ring_desc(s.drop_last(), r).push(s.last())
    }
}

/// Stable sort of rings by doubled signed area, descending: the largest
/// exterior first, the most negative hole last.
pub open spec fn sort_rings_desc(s: Seq<Seq<Point>>) -> Seq<Seq<Point>>
    decreases s.len(),
{
    if s.len() == 0 {
        Seq::empty()
    } else {
        insert_ring_desc(sort_rings_desc(s.drop_last()), s.last())
    }
}

proof fn lemma_insert_ring_split(s: Seq<Seq<Point>>, r: Seq<Point>, m: int)
    requires
        0 <= m <= s.len(),
        forall|i: int| m <= i < s.len() ==> doubled_area(#[trigger] s[i]) < doubled_area(r),
        m > 0 ==> doubled_area(s[m - 1]) >= doubled_area(r),
    ensures
        insert_ring_desc(s, r) == s.take(m) + seq![r] + s.skip(m),
    decreases s.len(),
{
    if s.len() == 0 {
        assert(insert_ring_desc(s, r) =~= s.take(m) + seq![r] + s.skip(m));
    } else if doubled_area(s.last()) >= doubled_area(r) {
        assert(m == s.len());
        assert(insert_ring_desc(s, r) =~= s.take(m) + seq![r] + s.skip(m));
    } else {
        lemma_insert_ring_split(s.drop_last(), r, m);
        assert(insert_ring_desc(s.drop_last(), r).push(s.last()) =~= s.take(m) + seq![r] + s.skip(
            m,
        ));
    }
}

proof fn lemma_insert_ring_all(s: Seq<Seq<Point>>, r: Seq<Point>, p: spec_fn(Seq<Point>) -> bool)
    requires
        forall|i: int| 0 <= i < s.len() ==> p(#[trigger] s[i]),
        p(r),
    ensures
        insert_ring_desc(s, r).len() == s.len() + 1,
        forall|i: int| 0 <= i < s.len() + 1 ==> p(#[trigger] insert_ring_desc(s, r)[i]),
    decreases s.len(),
{
    if s.len() == 0 {
    } else if doubled_area(s.last()) >= doubled_area(r) {
    } else {
        lemma_insert_ring_all(s.drop_last(), r, p);
    }
}

pub proof fn lemma_sort_rings_all(s: Seq<Seq<Point>>, p: spec_fn(Seq<Point>) -> bool)
    requires
        forall|i: int| 0 <= i < s.len() ==> p(#[trigger] s[i]),
    ensures
        sort_rings_desc(s).len() == s.len(),
        forall|i: int| 0 <= i < s.len() ==> p(#[trigger] sort_rings_desc(s)[i]),
    decreases s.len(),
{
    if s.len() > 0 {
        lemma_sort_rings_all(s.drop_last(), p);
        lemma_insert_ring_all(sort_rings_desc(s.drop_last()), s.last(), p);
    }
}

fn insert_ring_exec(v: &mut Vec<Vec<Point>>, r: Vec<Point>)
    requires
        forall|i: int|
            0 <= i < old(v)@.len() ==> ring_in(#[trigger] old(v)@[i]@, COORD_LIMIT as int)
                && valid_ring(old(v)@[i]@),
        ring_in(r@, COORD_LIMIT as int),
        valid_ring(r@),
    ensures
        ring_views(final(v)@) == insert_ring_desc(ring_views(old(v)@), r@),
        forall|i: int|
            0 <= i < final(v)@.len() ==> ring_in(#[trigger] final(v)@[i]@, COORD_LIMIT as int)
                && valid_ring(final(v)@[i]@),
{
    let ra = doubled_area_exec(&r);
    let mut m = v.len();
    while m > 0 && doubled_area_exec(&v[m - 1]) < ra
        invariant
            0 <= m <= v@.len(),
            v@ == old(v)@,
            ra == doubled_area(r@),
            ring_in(r@, COORD_LIMIT as int),
            valid_ring(r@),
            forall|i: int|
                0 <= i < v@.len() ==> ring_in(#[trigger] v@[i]@, COORD_LIMIT as int) && valid_ring(
                    v@[i]@,
                ),
            forall|i: int|
                m <= i < v@.len() ==> doubled_area(#[trigger] ring_views(v@)[i]) < doubled_area(
                    r@,
                ),
        decreases m,
    {
        proof {
            assert(ring_views(v@)[m - 1] == v@[m - 1]@);
        }
        m = m - 1;
    }
    proof {
        if m > 0 {
            assert(ring_views(v@)[m - 1] == v@[m - 1]@);
        }
        lemma_insert_ring_split(ring_views(v@), r@, m as int);
    }
    let ghost pre = v@;
    v.insert(m, r);
    proof {
        assert(ring_views(v@) =~~= ring_views(pre).take(m as int) + seq![r@] + ring_views(
            pre,
        ).skip(m as int));
    }
}

/// The most recently pushed polygon whose exterior contains `p`, or -1.
pub open spec fn find_host(acc: Seq<PolyView>, p: Point) -> int
    decreases acc.len(),
{
    if acc.len() == 0 {
        -1
    } else if point_in_ring(acc.last().exterior, p) {
        acc.len() - 1
    } else {
        find_host(acc.drop_last(), p)
    }
}

pub proof fn lemma_find_host_range(acc: Seq<PolyView>, p: Point)
    ensures
        -1 <= find_host(acc, p) < acc.len(),
    decreases acc.len(),
{
    if acc.len() > 0 {
        lemma_find_host_range(acc.drop_last(), p);
    }
}

proof fn lemma_find_host_skip(acc: Seq<PolyView>, p: Point, j: int)
    requires
        0 <= j <= acc.len(),
        forall|q: int| j <= q < acc.len() ==> !point_in_ring(#[trigger] acc[q].exterior, p),
    ensures
        find_host(acc, p) == find_host(acc.take(j), p),
    decreases acc.len(),
{
    if acc.len() > 0 && j < acc.len() {
        lemma_find_host_skip(acc.drop_last(), p, j);
        assert(acc.drop_last().take(j) =~= acc.take(j));
    } else {
        assert(acc.take(j) =~= acc);
    }
}

/// One step of ring nesting: a counter-clockwise ring opens a new polygon;
/// any other ring becomes a hole of the most recently opened polygon whose
/// exterior contains its first vertex, and is rejected when there is none.
pub open spec fn nest_step(acc: Seq<PolyView>, r: Seq<Point>) -> Option<Seq<PolyView>> {
    if doubled_area(r) > 0 {
        Some(acc.push(PolyView { exterior: r, interiors: Seq::empty() }))
    } else {
        let j = find_host(acc, r[0]);
        if j < 0 {
            None
        } else {
            Some(
                acc.update(
                    j,
                    PolyView { exterior: acc[j].exterior, interiors: acc[j].interiors.push(r) },
                ),
            )
        }
    }
}

/// Nest the first `k` rings of the area-sorted list.
pub open spec fn nest_all(sorted: Seq<Seq<Point>>, k: int) -> Option<Seq<PolyView>>
    decreases k,
{
    if k <= 0 {
        Some(Seq::empty())
    } else {
        match nest_all(sorted, k - 1) {
            None => None,
            Some(acc) => nest_step(acc, sorted[k - 1]),
        }
    }
}

proof fn lemma_nest_all_none(sorted: Seq<Seq<Point>>, i: int, n: int)
    requires
        0 <= i <= n,
        nest_all(sorted, i) is None,
    ensures
        nest_all(sorted, n) is None,
    decreases n - i,
{
    if i < n {
        lemma_nest_all_none(sorted, i + 1, n);
    }
}

impl Slice {
    /// Build a layer region from rings with unknown nesting. Rings are
    /// sorted by signed area descending, so every hole meets its enclosing
    /// exterior after that exterior was opened; a hole that no open
    /// exterior contains makes the input malformed.
    pub fn from_multiple_point_loop(rings: &Vec<Vec<Point>>) -> (r: Result<Slice, SlicerError>)
        requires
            forall|i: int|
                0 <= i < rings@.len() ==> valid_ring(#[trigger] ring_views(rings@)[i]) && ring_in(
                    ring_views(rings@)[i],
                    COORD_LIMIT as int,
                ),
        ensures
            ({
                let nested = nest_all(
                    sort_rings_desc(ring_views(rings@)),
                    rings@.len() as int,
                );
                &&& (r is Ok <==> nested is Some)
                &&& (r is Err ==> r->Err_0 == SlicerError::MalformedRings)
                &&& (r is Ok ==> poly_views(r->Ok_0.main@) =~~= nested->Some_0)
                &&& (r is Ok ==> poly_views(r->Ok_0.remaining@) =~~= nested->Some_0)
                &&& (r is Ok ==> r->Ok_0.chains@.len() == 0)
                &&& (r is Ok ==> slice_wf(r->Ok_0))
            }),
    {
        let n = rings.len();
        let mut sorted: Vec<Vec<Point>> = Vec::new();
        let mut i: usize = 0;
        while i < n
            invariant
                0 <= i <= n,
                n == rings@.len(),
                forall|q: int|
                    0 <= q < rings@.len() ==> valid_ring(#[trigger] ring_views(rings@)[q])
                        && ring_in(ring_views(rings@)[q], COORD_LIMIT as int),
                ring_views(sorted@) == sort_rings_desc(ring_views(rings@).take(i as int)),
                forall|q: int|
                    0 <= q < sorted@.len() ==> ring_in(#[trigger] sorted@[q]@, COORD_LIMIT as int)
                        && valid_ring(sorted@[q]@),
            decreases n - i,
        {
            proof {
                assert(ring_views(rings@)[i as int] == rings@[i as int]@);
            }
            let r = copy_points(&rings[i]);
            insert_ring_exec(&mut sorted, r);
            proof {
                assert(ring_views(rings@).take(i + 1).drop_last() =~= ring_views(rings@).take(
                    i as int,
                ));
                assert(ring_views(rings@).take(i + 1).last() == rings@[i as int]@);
            }
            i = i + 1;
        }
        proof {
            assert(ring_views(rings@).take(n as int) =~= ring_views(rings@));
        }
        let ghost sv = sort_rings_desc(ring_views(rings@));
        proof {
            lemma_sort_rings_all(
                ring_views(rings@),
                |r: Seq<Point>| valid_ring(r) && ring_in(r, COORD_LIMIT as int),
            );
        }
        let mut polys: Vec<Polygon> = Vec::new();
        let mut k: usize = 0;
        while k < n
            invariant
                0 <= k <= n,
                n == rings@.len() == sorted@.len(),
                sv == sort_rings_desc(ring_views(rings@)),
                ring_views(sorted@) == sv,
                forall|q: int|
                    0 <= q < sorted@.len() ==> ring_in(#[trigger] sorted@[q]@, COORD_LIMIT as int)
                        && valid_ring(sorted@[q]@),
                nest_all(sv, k as int) is Some,
                poly_views(polys@) =~~= nest_all(sv, k as int)->Some_0,
                region_ok(polys@),
            decreases n - k,
        {
            proof {
                assert(ring_views(sorted@)[k as int] == sorted@[k as int]@);
            }
            let ring = copy_points(&sorted[k]);
            let area = doubled_area_exec(&ring);
            let ghost acc = nest_all(sv, k as int)->Some_0;
            if area > 0 {
                let p = Polygon { exterior: ring, interiors: Vec::new() };
                let ghost pre = polys@;
                polys.push(p);
                proof {
                    assert(ring_views(p.interiors@) =~= Seq::<Seq<Point>>::empty());
                    assert(poly_views(polys@) =~= poly_views(pre).push(p@));
                    assert(poly_views(polys@) =~~= nest_all(sv, k + 1)->Some_0);
                }
            } else {
                let anchor = ring[0];
                let mut j = polys.len();
                let mut found = false;
                while j > 0
                    invariant_except_break
                        0 <= j <= polys@.len(),
                        region_ok(polys@),
                        pt_in(anchor, COORD_LIMIT as int),
                        !found,
                        forall|q: int|
                            j <= q < polys@.len() ==> !point_in_ring(
                                #[trigger] poly_views(polys@)[q].exterior,
                                anchor,
                            ),
                    ensures
                        0 <= j <= polys@.len(),
                        forall|q: int|
                            j <= q < polys@.len() ==> !point_in_ring(
                                #[trigger] poly_views(polys@)[q].exterior,
                                anchor,
                            ),
                        found ==> j >= 1 && point_in_ring(
                            poly_views(polys@)[j - 1].exterior,
                            anchor,
                        ),
                        !found ==> j == 0,
                    decreases j,
                {
                    proof {
                        assert(valid_polygon(polys@[j - 1]) && poly_in(
                            polys@[j - 1],
                            COORD_LIMIT as int,
                        ));
                        assert(poly_views(polys@)[j - 1].exterior == polys@[j - 1].exterior@);
                    }
                    if point_in_ring_exec(&polys[j - 1].exterior, anchor) {
                        found = true;
                        break;
                    }
                    j = j - 1;
                }
                if !found {
                    proof {
                        lemma_find_host_skip(poly_views(polys@), anchor, 0);
                        assert(poly_views(polys@).take(0) =~= Seq::<PolyView>::empty());
                        assert(find_host(poly_views(polys@), anchor) == -1);
                        assert(find_host(acc, anchor) == -1) by {
                            assert(poly_views(polys@) =~~= acc);
                        }
                        assert(nest_step(acc, sv[k as int]) is None);
                        assert(nest_all(sv, k + 1) is None);
                        lemma_nest_all_none(sv, k + 1, n as int);
                    }
                    return Err(SlicerError::MalformedRings);
                }
                proof {
                    lemma_find_host_skip(poly_views(polys@), anchor, j as int);
                    assert(poly_views(polys@).take(j as int).last() == poly_views(polys@)[j - 1]);
                    assert(find_host(poly_views(polys@), anchor) == j - 1);
                    assert(find_host(acc, anchor) == j - 1) by {
                        assert(poly_views(polys@) =~~= acc);
                    }
                }
                let ghost orig = polys@;
                let ghost ringv = ring@;
                let mut host = polys.remove(j - 1);
                let ghost hostints = host.interiors@;
                host.interiors.push(ring);
                proof {
                    assert(ring_views(host.interiors@) =~= ring_views(hostints).push(ringv));
                    assert(host@.interiors =~~= acc[j - 1].interiors.push(sv[k as int])) by {
                        assert(poly_views(orig)[j - 1] == orig[j - 1]@);
                        assert(ringv == sv[k as int]);
                    }
                    assert(host@.exterior == acc[j - 1].exterior) by {
                        assert(poly_views(orig)[j - 1] == orig[j - 1]@);
                    }
                }
                polys.insert(j - 1, host);
                proof {
                    assert(polys@ =~= orig.remove(j - 1).insert(j - 1, host));
                    assert(polys@ =~= orig.update(j - 1, host));
                    assert(poly_views(polys@) =~~= poly_views(orig).update(j - 1, host@));
                    assert(poly_views(polys@) =~~= acc.update(
                        j - 1,
                        PolyView {
                            exterior: acc[j - 1].exterior,
                            interiors: acc[j - 1].interiors.push(sv[k as int]),
                        },
                    ));
                    assert(nest_step(acc, sv[k as int]) is Some);
                    assert(poly_views(polys@) =~~= nest_all(sv, k + 1)->Some_0);
                }
            }
            k = k + 1;
        }
        let remaining = copy_region(&polys);
        Ok(Slice { main: polys, remaining, chains: Vec::new() })
    }
}

} // verus!
