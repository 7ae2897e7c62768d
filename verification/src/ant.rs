//! One ant and its step.

use vstd::prelude::*;
use rand::rngs::SmallRng;
use crate::rng::random_index;
use crate::world::{World, WorldView};

verus! {

/// The number of moves after which an ant no longer counts.
pub const MAX_MOVES: u32 = 10_000;

/// An ant. It is known by its place in the list of ants; a dead ant keeps
/// its place.
#[derive(Debug, Clone, Copy, PartialEq, Eq)]
pub struct Ant {
    pub current_colony: usize,
    pub moves: u32,
    pub alive: bool,
}

impl Ant {
    /// The ant stands on a colony of `world`, or is dead.
    pub open spec fn placed(self, world: WorldView) -> bool {
        self.alive ==> self.current_colony < world.len()
    }

    /// The ant has somewhere to go: it is alive, on a live colony that has
    /// an outgoing edge. Only then does a step draw a random number.
    pub open spec fn draws(self, world: WorldView) -> bool {
        &&& self.alive
        &&& world.alive[self.current_colony as int]
        &&& world.edges[self.current_colony as int].len() > 0
    }

    /// The move counter after one more move: it stops at [`MAX_MOVES`].
    pub open spec fn moves_after(self) -> u32 {
        if self.moves < MAX_MOVES {
            (self.moves + 1) as u32
        } else {
            self.moves
        }
    }

    /// The ant after one step in `world`, where `pick` is the index of the
    /// edge it takes if it has one to take.
    ///
    /// A dead ant stays as it is. An ant on a dead colony dies there. Any
    /// other ant counts one move, and follows edge number `pick` of its
    /// colony if the colony has an edge.
    pub open spec fn stepped(self, world: WorldView, pick: int) -> Ant {
        if !self.alive {
            self
        } else if !world.alive[self.current_colony as int] {
            Ant { current_colony: self.current_colony, moves: self.moves, alive: false }
        } else if world.edges[self.current_colony as int].len() == 0 {
            Ant { current_colony: self.current_colony, moves: self.moves_after(), alive: true }
        } else {
            Ant {
                current_colony: world.edges[self.current_colony as int][pick].1,
                moves: self.moves_after(),
                alive: true,
            }
        }
    }

    /// `after` is what one step in `world` can make of this ant, whatever
    /// is drawn.
    pub open spec fn may_step_to(self, world: WorldView, after: Ant) -> bool {
        if self.draws(world) {
            exists|pick: int|
                0 <= pick < world.edges[self.current_colony as int].len() && after
                    == #[trigger] self.stepped(world, pick)
        } else {
            after == self.stepped(world, 0)
        }
    }

    /// A new ant on `colony`: alive, with no move made.
    pub fn new(colony: usize) -> (ant: Ant)
        ensures
            ant == (Ant { current_colony: colony, moves: 0, alive: true }),
    {
        Ant { current_colony: colony, moves: 0, alive: true }
    }
}

/// A step leaves a dead ant as it is, never revives one, never takes back a
/// move, and leaves a live ant on a colony of the world: on a live one, where
/// no edge of the world leads to a dead colony.
pub proof fn lemma_step_bounds(ant: Ant, world: WorldView, pick: int)
    requires
        world.valid(),
        ant.placed(world),
        ant.draws(world) ==> 0 <= pick < world.edges[ant.current_colony as int].len(),
    ensures
        !ant.alive ==> ant.stepped(world, pick) == ant,
        ant.stepped(world, pick).alive ==> ant.alive,
        ant.stepped(world, pick).placed(world),
        ant.stepped(world, pick).moves >= ant.moves,
        ant.stepped(world, pick).alive ==> ant.stepped(world, pick).moves >= MAX_MOVES
            || ant.stepped(world, pick).moves == ant.moves + 1,
        world.settled() && ant.stepped(world, pick).alive ==> world.alive[ant.stepped(
            world,
            pick,
        ).current_colony as int],
{
}

/// Whatever is drawn, a step leaves a dead ant as it is, never revives one,
/// never takes back a move, and leaves a live ant on a colony of the world:
/// on a live one, where no edge of the world leads to a dead colony.
pub proof fn lemma_may_step_bounds(before: Ant, world: WorldView, after: Ant)
    requires
        world.valid(),
        before.placed(world),
        before.may_step_to(world, after),
    ensures
        !before.alive ==> after == before,
        after.alive ==> before.alive,
        after.placed(world),
        after.moves >= before.moves,
        after.alive ==> after.moves >= MAX_MOVES || after.moves == before.moves + 1,
        world.settled() && after.alive ==> world.alive[after.current_colony as int],
{
    if before.draws(world) {
        let pick = choose|pick: int|
            0 <= pick < world.edges[before.current_colony as int].len() && after
                == #[trigger] before.stepped(world, pick);
        lemma_step_bounds(before, world, pick);
    } else {
        lemma_step_bounds(before, world, 0);
    }
}

/// Moves `ant` one step, taking edge number `pick` where there is an edge to
/// take.
pub fn advance_ant(ant: &mut Ant, world: &World, pick: usize)
    requires
        world.wf(),
        old(ant).placed(world@),
        old(ant).draws(world@) ==> pick < world@.edges[old(ant).current_colony as int].len(),
    ensures
        *final(ant) == old(ant).stepped(world@, pick as int),
{
    if !ant.alive {
        return ;
    }
    if !world.alive[ant.current_colony] {
        ant.alive = false;
        return ;
    }
    if ant.moves < MAX_MOVES {
        ant.moves = ant.moves + 1;
    }
    let outgoing = &world.colonies[ant.current_colony].outgoing;
    if outgoing.len() > 0 {
        ant.current_colony = outgoing[pick].1;
    }
}

/// Moves `ant` one step along an edge that `rng` picks among the edges of
/// its colony. The generator is asked only if the ant has an edge to take.
pub fn update_ant(ant: &mut Ant, world: &World, rng: &mut SmallRng)
    requires
        world.wf(),
        old(ant).placed(world@),
    ensures
        old(ant).may_step_to(world@, *final(ant)),
{
    let choices: usize = if ant.alive && world.alive[ant.current_colony] {
        world.colonies[ant.current_colony].outgoing.len()
    } else {
        0
    };
    let pick: usize = if choices > 0 {
        random_index(rng, choices)
    } else {
        0
    };
    advance_ant(ant, world, pick);
}

} // verus!
