use vstd::prelude::*;
use vstd::seq_lib::*;
use crate::geom::{poly_in, ring_in, ring_views, valid_polygon, valid_ring, Point, Polygon, COORD_LIMIT};
use crate::moves::{
    chain_ok, collapse_move_chains, ring_chain, ring_chain_view, stitched_moves, views_of,
    ChainView, Move, MoveChain, MoveType,
};
use crate::settings::Settings;

verus! {

/// One level of a precomputed inset tree: the polygon of this wall, and the
/// polygons of the next wall inside it. The offsets themselves are computed
/// by the caller between passes; the planner walks the finished tree.
#[derive(Debug)]
pub struct InsetNode {
    pub polygon: Polygon,
    pub children: Vec<InsetNode>,
}

pub open spec fn node_ok(n: InsetNode) -> bool
    decreases n,
{
    &&& valid_polygon(n.polygon)
    &&& poly_in(n.polygon, COORD_LIMIT as int)
    &&& forall|i: int| 0 <= i < n.children@.len() ==> node_ok(#[trigger] n.children@[i])
}

pub open spec fn nodes_ok(ns: Seq<InsetNode>) -> bool {
    forall|i: int| 0 <= i < ns.len() ==> node_ok(#[trigger] ns[i])
}

/// The chains that trace one polygon: its exterior ring, then each hole.
pub open spec fn polygon_chains(p: Polygon, kind: MoveType, width: u64) -> Seq<ChainView> {
    seq![ring_chain_view(p.exterior@, kind, width)] + Seq::new(
        p.interiors@.len(),
        |i: int| ring_chain_view(ring_views(p.interiors@)[i], kind, width),
    )
}

/// A stitched tour of a chain list, when there is one.
pub open spec fn collapse_view(chains: Seq<ChainView>) -> Option<ChainView> {
    if chains.len() == 0 {
        None
    } else {
        Some(ChainView { start: chains[0].start, moves: stitched_moves(chains) })
    }
}

/// Chains of one inset subtree: this wall's rings, and around them the
/// collapsed tours of the deeper walls, ordered by `inner_first`.
pub open spec fn subtree_chains(
    n: InsetNode,
    outer: bool,
    inner_first: bool,
    width: u64,
) -> Seq<ChainView>
    decreases n,
{
    let kind = if outer {
        MoveType::OuterPerimeter
    } else {
        MoveType::InnerPerimeter
    };
    let own = polygon_chains(n.polygon, kind, width);
    let inner = children_collapsed(n.children@, inner_first, width);
    if inner_first {
        inner + own
    } else {
        own + inner
    }
}

/// The collapsed tour of each child subtree that produced any moves.
pub open spec fn children_collapsed(cs: Seq<InsetNode>, inner_first: bool, width: u64) -> Seq<
    ChainView,
>
    decreases cs,
{
    if cs.len() == 0 {
        Seq::empty()
    } else {
        children_collapsed(cs.drop_last(), inner_first, width) + match collapse_view(
            subtree_chains(cs.last(), false, inner_first, width),
        ) {
            Some(c) => seq![c],
            None => Seq::empty(),
        }
    }
}

pub open spec fn forest_chains(
    ns: Seq<InsetNode>,
    outer: bool,
    inner_first: bool,
    width: u64,
) -> Seq<ChainView>
    decreases ns,
{
    if ns.len() == 0 {
        Seq::empty()
    } else {
        forest_chains(ns.drop_last(), outer, inner_first, width) + subtree_chains(
            ns.last(),
            outer,
            inner_first,
            width,
        )
    }
}

/// Trace the rings of one polygon, exterior first.
pub fn polygon_into_chains(p: &Polygon, kind: MoveType, width: u64, out: &mut Vec<MoveChain>)
    requires
        valid_polygon(*p),
        poly_in(*p, COORD_LIMIT as int),
    ensures
        views_of(final(out)@) == views_of(old(out)@) + polygon_chains(*p, kind, width),
        forall|i: int|
            old(out)@.len() <= i < final(out)@.len() ==> chain_ok(#[trigger] final(out)@[i]@),
        final(out)@.len() == old(out)@.len() + 1 + p.interiors@.len(),
{
    let c = ring_chain(&p.exterior, kind, width);
    proof {
        crate::moves::lemma_ring_chain_ok(p.exterior@, kind, width, COORD_LIMIT as int);
    }
    out.push(c);
    proof {
        assert(views_of(out@) =~~= views_of(old(out)@) + polygon_chains(*p, kind, width).take(1));
    }
    let m = p.interiors.len();
    let mut i: usize = 0;
    while i < m
        invariant
            0 <= i <= m,
            m == p.interiors@.len(),
            valid_polygon(*p),
            poly_in(*p, COORD_LIMIT as int),
            out@.len() == old(out)@.len() + 1 + i,
            views_of(out@) =~~= views_of(old(out)@) + polygon_chains(*p, kind, width).take(
                1 + i as int,
            ),
            forall|q: int|
                old(out)@.len() <= q < out@.len() ==> chain_ok(#[trigger] out@[q]@),
        decreases m - i,
    {
        assert(valid_ring(ring_views(p.interiors@)[i as int]));
        assert(ring_in(ring_views(p.interiors@)[i as int], COORD_LIMIT as int));
        let hc = ring_chain(&p.interiors[i], kind, width);
        proof {
            assert(ring_views(p.interiors@)[i as int] == p.interiors@[i as int]@);
            crate::moves::lemma_ring_chain_ok(
                ring_views(p.interiors@)[i as int],
                kind,
                width,
                COORD_LIMIT as int,
            );
            assert(hc@ == ring_chain_view(ring_views(p.interiors@)[i as int], kind, width));
            assert(polygon_chains(*p, kind, width)[1 + i as int] == ring_chain_view(
                ring_views(p.interiors@)[i as int],
                kind,
                width,
            ));
        }
        let ghost pre = out@;
        out.push(hc);
        proof {
            assert(out@ == pre.push(hc));
            assert(views_of(out@) =~~= views_of(pre).push(hc@));
            assert(views_of(out@) =~~= views_of(old(out)@) + polygon_chains(*p, kind, width).take(
                2 + i as int,
            ));
        }
        i = i + 1;
    }
    proof {
        assert(polygon_chains(*p, kind, width).take(1 + m as int) =~= polygon_chains(
            *p,
            kind,
            width,
        ));
        assert(views_of(out@) =~~= views_of(old(out)@) + polygon_chains(*p, kind, width));
    }
}

/// Append the chains of one inset subtree, deeper walls collapsed into one
/// tour per child, ordered by `inner_first`.
fn subtree_into_chains(
    n: &InsetNode,
    outer: bool,
    inner_first: bool,
    width: u64,
    out: &mut Vec<MoveChain>,
)
    requires
        node_ok(*n),
    ensures
        views_of(final(out)@) == views_of(old(out)@) + subtree_chains(
            *n,
            outer,
            inner_first,
            width,
        ),
        forall|i: int|
            old(out)@.len() <= i < final(out)@.len() ==> chain_ok(#[trigger] final(out)@[i]@),
    decreases *n,
{
    let kind = if outer {
        MoveType::OuterPerimeter
    } else {
        MoveType::InnerPerimeter
    };
    let mut own: Vec<MoveChain> = Vec::new();
    polygon_into_chains(&n.polygon, kind, width, &mut own);
    let mut inner: Vec<MoveChain> = Vec::new();
    let m = n.children.len();
    let mut i: usize = 0;
    while i < m
        invariant
            0 <= i <= m,
            m == n.children@.len(),
            node_ok(*n),
            views_of(inner@) =~~= children_collapsed(n.children@.take(i as int), inner_first, width),
            forall|q: int| 0 <= q < inner@.len() ==> chain_ok(#[trigger] inner@[q]@),
        decreases m - i,
    {
        let mut sub: Vec<MoveChain> = Vec::new();
        assert(node_ok(n.children@[i as int]));
        subtree_into_chains(&n.children[i], false, inner_first, width, &mut sub);
        let collapsed = collapse_move_chains(&sub);
        proof {
            assert(n.children@.take(i + 1).drop_last() =~= n.children@.take(i as int));
            assert(n.children@.take(i + 1).last() == n.children@[i as int]);
            assert(views_of(sub@) =~~= subtree_chains(
                n.children@[i as int],
                false,
                inner_first,
                width,
            ));
        }
        match collapsed {
            Some(c) => {
                proof {
                    assert(c@ =~~= collapse_view(views_of(sub@))->Some_0);
                    assert(chain_ok(c@)) by {
                        crate::moves::lemma_stitched_ok(views_of(sub@));
                    }
                }
                inner.push(c);
                proof {
                    assert(views_of(inner@) =~~= children_collapsed(
                        n.children@.take(i + 1),
                        inner_first,
                        width,
                    ));
                }
            },
            None => {
                proof {
                    assert(views_of(inner@) =~~= children_collapsed(
                        n.children@.take(i + 1),
                        inner_first,
                        width,
                    ));
                }
            },
        }
        i = i + 1;
    }
    proof {
        assert(n.children@.take(m as int) =~= n.children@);
    }
    let ghost base = out@;
    if inner_first {
        out.append(&mut inner);
        out.append(&mut own);
        proof {
            assert(views_of(out@) =~~= views_of(base) + subtree_chains(
                *n,
                outer,
                inner_first,
                width,
            ));
        }
    } else {
        out.append(&mut own);
        out.append(&mut inner);
        proof {
            assert(views_of(out@) =~~= views_of(base) + subtree_chains(
                *n,
                outer,
                inner_first,
                width,
            ));
        }
    }
    proof {
        assert forall|i: int| base.len() <= i < out@.len() implies chain_ok(
            #[trigger] out@[i]@,
        ) by {
        }
    }
}

/// Depth-first perimeter pass over a precomputed inset tree: every wall of
/// every branch, outer or inner before the rest as `inner_perimeters_first`
/// directs, collapsed into one tour stitched by travel moves.
pub fn inset_polygon_recursive(
    nodes: &Vec<InsetNode>,
    settings: &Settings,
    outer_perimeter: bool,
) -> (r: Option<MoveChain>)
    requires
        nodes_ok(nodes@),
    ensures
        ({
            let all = forest_chains(
                nodes@,
                outer_perimeter,
                settings.inner_perimeters_first,
                settings.layer_width,
            );
            &&& (r is Some <==> all.len() > 0)
            &&& (r is Some ==> r->Some_0@.start == all[0].start)
            &&& (r is Some ==> r->Some_0@.moves == stitched_moves(all))
        }),
        r is Some ==> chain_ok(r->Some_0@),
{
    let mut move_chains: Vec<MoveChain> = Vec::new();
    let m = nodes.len();
    let mut i: usize = 0;
    while i < m
        invariant
            0 <= i <= m,
            m == nodes@.len(),
            nodes_ok(nodes@),
            views_of(move_chains@) =~~= forest_chains(
                nodes@.take(i as int),
                outer_perimeter,
                settings.inner_perimeters_first,
                settings.layer_width,
            ),
            forall|q: int| 0 <= q < move_chains@.len() ==> chain_ok(#[trigger] move_chains@[q]@),
        decreases m - i,
    {
        assert(node_ok(nodes@[i as int]));
        let ghost prev = move_chains@;
        subtree_into_chains(
            &nodes[i],
            outer_perimeter,
            settings.inner_perimeters_first,
            settings.layer_width,
            &mut move_chains,
        );
        proof {
            assert forall|q: int| 0 <= q < move_chains@.len() implies chain_ok(
                #[trigger] move_chains@[q]@,
            ) by {
                if q < prev.len() {
                    assert(views_of(move_chains@)[q] == views_of(prev)[q]);
                    assert(move_chains@[q]@ == prev[q]@);
                }
            }
        }
        proof {
            assert(nodes@.take(i + 1).drop_last() =~= nodes@.take(i as int));
            assert(nodes@.take(i + 1).last() == nodes@[i as int]);
            assert(views_of(move_chains@) =~~= forest_chains(
                nodes@.take(i + 1),
                outer_perimeter,
                settings.inner_perimeters_first,
                settings.layer_width,
            ));
        }
        i = i + 1;
    }
    proof {
        assert(nodes@.take(m as int) =~= nodes@);
    }
    let r = collapse_move_chains(&move_chains);
    proof {
        if move_chains@.len() > 0 {
            crate::moves::lemma_stitched_ok(views_of(move_chains@));
        }
    }
    r
}

/// The exterior of the polygon as an open stroke: its vertices in order,
/// then the first vertex again to close the loop.
pub fn extract_line_poly_as_stroke(poly: &Polygon, layer_width: u64) -> (v: Vec<Point>)
    requires
        poly.exterior@.len() >= 1,
    ensures
        v@ == poly.exterior@ + seq![poly.exterior@[0]],
{
    let n = poly.exterior.len();
    let mut v: Vec<Point> = Vec::new();
    let mut i: usize = 0;
    while i < n
        invariant
            0 <= i <= n,
            n == poly.exterior@.len(),
            v@ =~= poly.exterior@.take(i as int),
        decreases n - i,
    {
        v.push(poly.exterior[i]);
        proof {
            assert(v@ =~= poly.exterior@.take(i + 1));
        }
        i = i + 1;
    }
    proof {
        assert(poly.exterior@.take(n as int) =~= poly.exterior@);
    }
    v.push(poly.exterior[0]);
    v
}

/// Trace the polygon's exterior as a single stroke of `move_type` moves;
/// the chain is exactly the ring traced edge by edge back to its start.
pub fn draw_as_line(poly: &Polygon, layer_width: u64, move_type: MoveType) -> (r: Option<
    MoveChain,
>)
    requires
        poly.exterior@.len() >= 1,
    ensures
        r is Some,
        r->Some_0@ == ring_chain_view(poly.exterior@, move_type, layer_width),
{
    let stroke = extract_line_poly_as_stroke(poly, layer_width);
    let start = stroke[0];
    let mut mv: Vec<Move> = Vec::new();
    let mut i: usize = 1;
    while i < stroke.len()
        invariant
            1 <= i <= stroke@.len(),
            stroke@ == poly.exterior@ + seq![poly.exterior@[0]],
            mv@ =~= ring_chain_view(poly.exterior@, move_type, layer_width).moves.take(i - 1),
        decreases stroke@.len() - i,
    {
        mv.push(Move { end: stroke[i], move_type, width: layer_width });
        proof {
            assert(mv@ =~= ring_chain_view(poly.exterior@, move_type, layer_width).moves.take(
                i as int,
            ));
        }
        i = i + 1;
    }
    let c = MoveChain { start_point: start, moves: mv };
    proof {
        assert(c@ =~= ring_chain_view(poly.exterior@, move_type, layer_width));
    }
    Some(c)
}

} // verus!
