use vstd::prelude::*;
use crate::geom::{ring_in, pt_in, Point, CHAIN_LIMIT};

verus! {

/// Semantic role of a move.
#[derive(Clone, Copy, PartialEq, Eq, Structural, Debug)]
pub enum MoveType {
    Travel,
    OuterPerimeter,
    InnerPerimeter,
    SolidInfill,
}

/// A straight move ending at `end`; its start is the previous move's end.
/// `width` is the deposited bead width, 0 for travel.
#[derive(Clone, Copy, PartialEq, Eq, Structural, Debug)]
pub struct Move {
    pub end: Point,
    pub move_type: MoveType,
    pub width: u64,
}

/// A connected polyline: `moves` continue one another starting at
/// `start_point`.
#[derive(Clone, Debug)]
pub struct MoveChain {
    pub start_point: Point,
    pub moves: Vec<Move>,
}

/// Mathematical image of a `MoveChain`.
#[verifier::ext_equal]
pub ghost struct ChainView {
    pub start: Point,
    pub moves: Seq<Move>,
}

impl View for MoveChain {
    type V = ChainView;

    open spec fn view(&self) -> ChainView {
        ChainView { start: self.start_point, moves: self.moves@ }
    }
}

pub open spec fn views_of(chains: Seq<MoveChain>) -> Seq<ChainView> {
    chains.map_values(|c: MoveChain| c@)
}

/// A positioning move with the extruder disengaged.
pub open spec fn travel_to(p: Point) -> Move {
    Move { end: p, move_type: MoveType::Travel, width: 0 }
}

/// The chain that traces a closed ring: one move per edge, returning to the
/// ring's first point.
pub open spec fn ring_chain_view(ring: Seq<Point>, kind: MoveType, width: u64) -> ChainView
    recommends
        ring.len() >= 1,
{
    ChainView {
        start: ring[0],
        moves: Seq::new(
            ring.len(),
            |i: int|
                Move {
                    end: ring[if i + 1 == ring.len() {
                        0int
                    } else {
                        i + 1
                    }],
                    move_type: kind,
                    width,
                },
        ),
    }
}

/// Trace a closed ring as one chain of deposited moves. Every move is
/// non-travel and ends on the next ring vertex, so consecutive moves share
/// endpoints by construction and the chain returns to `ring[0]`.
pub fn ring_chain(ring: &Vec<Point>, kind: MoveType, width: u64) -> (c: MoveChain)
    requires
        ring@.len() >= 1,
    ensures
        c@ == ring_chain_view(ring@, kind, width),
{
    let n = ring.len();
    let mut moves: Vec<Move> = Vec::new();
    let mut i: usize = 0;
    while i < n
        invariant
            0 <= i <= n,
            n == ring@.len(),
            moves@ =~= ring_chain_view(ring@, kind, width).moves.take(i as int),
        decreases n - i,
    {
        let j = if i + 1 == n {
            0
        } else {
            i + 1
        };
        moves.push(Move { end: ring[j], move_type: kind, width });
        proof {
            assert(moves@ =~= ring_chain_view(ring@, kind, width).moves.take(i + 1));
        }
        i = i + 1;
    }
    let c = MoveChain { start_point: ring[0], moves };
    proof {
        assert(c@ =~= ring_chain_view(ring@, kind, width));
    }
    c
}

/// A chain the serialiser can consume: it has at least one move and all
/// its coordinates are within the workspace bound.
pub open spec fn chain_ok(c: ChainView) -> bool {
    &&& c.moves.len() >= 1
    &&& pt_in(c.start, CHAIN_LIMIT as int)
    &&& forall|j: int|
        0 <= j < c.moves.len() ==> pt_in(#[trigger] c.moves[j].end, CHAIN_LIMIT as int)
}

/// A ring chain over bounded points is a consumable chain.
pub proof fn lemma_ring_chain_ok(ring: Seq<Point>, kind: MoveType, width: u64, b: int)
    requires
        ring.len() >= 1,
        ring_in(ring, b),
        0 <= b <= CHAIN_LIMIT as int,
    ensures
        chain_ok(ring_chain_view(ring, kind, width)),
{
    let c = ring_chain_view(ring, kind, width);
    assert forall|j: int| 0 <= j < c.moves.len() implies pt_in(
        #[trigger] c.moves[j].end,
        CHAIN_LIMIT as int,
    ) by {
        let t = if j + 1 == ring.len() {
            0int
        } else {
            j + 1
        };
        assert(pt_in(ring[t], b));
    }
}

/// Moves of the serialised tour: for each chain, a travel to its start
/// followed by its own moves.
pub open spec fn stitched_moves(chains: Seq<ChainView>) -> Seq<Move>
    decreases chains.len(),
{
    if chains.len() == 0 {
        Seq::empty()
    } else {
        stitched_moves(chains.drop_last()) + seq![travel_to(chains.last().start)]
            + chains.last().moves
    }
}

/// Stitching consumable chains keeps every coordinate within bounds and
/// yields at least one move per chain.
pub proof fn lemma_stitched_ok(chains: Seq<ChainView>)
    requires
        forall|i: int| 0 <= i < chains.len() ==> chain_ok(#[trigger] chains[i]),
    ensures
        stitched_moves(chains).len() >= chains.len(),
        forall|j: int|
            0 <= j < stitched_moves(chains).len() ==> pt_in(
                #[trigger] stitched_moves(chains)[j].end,
                CHAIN_LIMIT as int,
            ),
    decreases chains.len(),
{
    if chains.len() > 0 {
        lemma_stitched_ok(chains.drop_last());
        let s = stitched_moves(chains);
        let pre = stitched_moves(chains.drop_last());
        let c = chains.last();
        assert forall|j: int| 0 <= j < s.len() implies pt_in(
            #[trigger] s[j].end,
            CHAIN_LIMIT as int,
        ) by {
            if j < pre.len() {
                assert(s[j] == pre[j]);
            } else if j == pre.len() {
                assert(s[j] == travel_to(c.start));
            } else {
                assert(s[j] == c.moves[j - pre.len() - 1]);
            }
        }
    }
}

/// Stitch a list of chains into one, in the order given: each chain is
/// preceded by a travel move to its start point. The serialised chain starts
/// at the first chain's start, so every spatial discontinuity in it is
/// bridged by a travel move.
pub fn collapse_move_chains(chains: &Vec<MoveChain>) -> (r: Option<MoveChain>)
    ensures
        chains@.len() == 0 ==> r is None,
        chains@.len() > 0 ==> {
            &&& r is Some
            &&& r->Some_0@.start == chains@[0]@.start
            &&& r->Some_0@.moves == stitched_moves(views_of(chains@))
        },
{
    if chains.len() == 0 {
        return None;
    }
    let starting_point = chains[0].start_point;
    let mut full_moves: Vec<Move> = Vec::new();
    let mut i: usize = 0;
    while i < chains.len()
        invariant
            0 <= i <= chains@.len(),
            full_moves@ =~= stitched_moves(views_of(chains@).take(i as int)),
        decreases chains@.len() - i,
    {
        full_moves.push(Move {
            end: chains[i].start_point,
            move_type: MoveType::Travel,
            width: 0,
        });
        let mut j: usize = 0;
        while j < chains[i].moves.len()
            invariant
                0 <= i < chains@.len(),
                0 <= j <= chains@[i as int].moves@.len(),
                full_moves@ =~= stitched_moves(views_of(chains@).take(i as int)) + seq![
                    travel_to(chains@[i as int]@.start),
                ] + chains@[i as int].moves@.take(j as int),
            decreases chains@[i as int].moves@.len() - j,
        {
            full_moves.push(chains[i].moves[j]);
            proof {
                assert(chains@[i as int].moves@.take(j + 1) =~= chains@[i as int].moves@.take(
                    j as int,
                ).push(chains@[i as int].moves@[j as int]));
            }
            j = j + 1;
        }
        proof {
            assert(views_of(chains@).take(i + 1).drop_last() =~= views_of(chains@).take(i as int));
            assert(chains@[i as int].moves@.take(chains@[i as int].moves@.len() as int)
                =~= chains@[i as int].moves@);
        }
        i = i + 1;
    }
    proof {
        assert(views_of(chains@).take(chains@.len() as int) =~= views_of(chains@));
    }
    Some(MoveChain { start_point: starting_point, moves: full_moves })
}

} // verus!
