//! What holds of every tick and of every run.

use vstd::prelude::*;
use crate::ant::{lemma_may_step_bounds, Ant, MAX_MOVES};
use crate::cleanup::{collided, crowded, struck, DestructionView};
use crate::movement::{
    all_moved, all_placed, lemma_filtered_indices, occupancy, occupants, stands_on,
};
use crate::seq_lemmas::lemma_filter_push;
use crate::simulation::{cleaned, joined, lemma_ticked, ran, state_of, ticked, SimulationState};
use crate::world::{Direction, World, WorldView};

verus! {

/// The test that an ant is alive.
pub open spec fn living() -> spec_fn(Ant) -> bool {
    |ant: Ant| ant.alive
}

/// The test that an ant is dead.
pub open spec fn fallen() -> spec_fn(Ant) -> bool {
    |ant: Ant| !ant.alive
}

/// The number of live ants.
pub open spec fn alive_count(ants: Seq<Ant>) -> nat {
    ants.filter(living()).len()
}

/// The number of dead ants.
pub open spec fn dead_count(ants: Seq<Ant>) -> nat {
    ants.filter(fallen()).len()
}

/// Every ant is alive or dead, and none is both.
pub proof fn lemma_counts(ants: Seq<Ant>)
    ensures
        alive_count(ants) + dead_count(ants) == ants.len(),
    decreases ants.len(),
{
    if ants.len() == 0 {
        crate::seq_lemmas::lemma_filter_empty(living());
        crate::seq_lemmas::lemma_filter_empty(fallen());
        assert(ants =~= Seq::empty());
    } else {
        let front = ants.drop_last();
        lemma_counts(front);
        assert(ants =~= front.push(ants.last()));
        lemma_filter_push(front, ants.last(), living());
        lemma_filter_push(front, ants.last(), fallen());
    }
}

/// In a well-formed world the reverse links are the exact inverse of the
/// edges: colony `c` has the edge `(dir, t)` exactly if colony `t` has the
/// reverse link for `c` and `dir`.
pub proof fn lemma_mirror(world: World, c: usize, dir: Direction, t: usize)
    requires
        world.wf(),
        c < world.size(),
        t < world.size(),
    ensures
        world.has_edge(c, dir, t) <==> world.has_reverse_link(t, c, dir),
{
}

/// Destroying a colony twice is destroying it once.
pub proof fn lemma_destroy_twice(world: WorldView, y: int)
    requires
        world.valid(),
        0 <= y < world.len(),
    ensures
        world.destroyed(y).destroyed(y) == world.destroyed(y),
{
    world.lemma_destroyed(y);
}

/// A live colony falls in a tick exactly if two live ants or more stand on
/// it once the ants have moved. A dead colony stays dead.
pub proof fn lemma_collision_threshold(
    moved: Seq<Ant>,
    world: WorldView,
    ants: Seq<Ant>,
    after: WorldView,
    events: Seq<DestructionView>,
)
    requires
        world.valid(),
        cleaned(moved, world, ants, after, events),
    ensures
        after.alive.len() == world.alive.len(),
        forall|c: usize|
            c < world.len() ==> (#[trigger] after.alive[c as int] <==> world.alive[c as int]
                && occupants(moved, c).len() < 2),
{
    let buckets = occupancy(moved, world.len());
    let gone = collided(buckets);
    lemma_filtered_indices(world.len(), crowded(buckets));
    world.lemma_destroyed_all(gone);
    assert forall|c: usize| c < world.len() implies (#[trigger] after.alive[c as int]
        <==> world.alive[c as int] && occupants(moved, c).len() < 2) by {
        assert(buckets[c as int] == occupants(moved, c));
        assert(gone.contains(c) <==> crowded(buckets)(c));
    }
}

/// In a world where no edge touches a dead colony, a colony falls in a tick
/// exactly if two live ants or more stand on it once the ants have moved.
pub proof fn lemma_collision_threshold_settled(
    before: Seq<Ant>,
    moved: Seq<Ant>,
    world: WorldView,
    ants: Seq<Ant>,
    after: WorldView,
    events: Seq<DestructionView>,
)
    requires
        world.valid(),
        world.settled(),
        before.len() <= usize::MAX,
        all_placed(before, world),
        all_moved(before, moved, world),
        cleaned(moved, world, ants, after, events),
    ensures
        forall|c: usize|
            c < world.len() ==> ((world.alive[c as int] && !(#[trigger] after.alive[c as int]))
                <==> occupants(moved, c).len() >= 2),
{
    lemma_collision_threshold(moved, world, ants, after, events);
    assert forall|c: usize| c < world.len() && !world.alive[c as int] implies occupants(
        moved,
        c,
    ).len() == 0 by {
        let here = occupants(moved, c);
        lemma_filtered_indices(moved.len(), stands_on(moved, c));
        if here.len() > 0 {
            let i = here[0];
            assert(here.contains(i));
            assert(before[i as int].may_step_to(world, moved[i as int]));
            lemma_may_step_bounds(before[i as int], world, moved[i as int]);
        }
    }
}

/// The ants that cleanup kills are the live ants that do not stand alone:
/// an ant is struck exactly if it is alive and shares its colony with another
/// live ant.
pub proof fn lemma_struck(moved: Seq<Ant>, world: WorldView, i: usize)
    requires
        moved.len() <= usize::MAX,
        all_placed(moved, world),
        i < moved.len(),
    ensures
        struck(occupancy(moved, world.len()), i) <==> (moved[i as int].alive && occupants(
            moved,
            moved[i as int].current_colony,
        ).len() >= 2),
{
    let buckets = occupancy(moved, world.len());
    let home = moved[i as int].current_colony;
    if struck(buckets, i) {
        let c = choose|c: int|
            0 <= c < buckets.len() && buckets[c].len() >= 2 && #[trigger] buckets[c].contains(i);
        lemma_filtered_indices(moved.len(), stands_on(moved, c as usize));
        assert(buckets[c] == occupants(moved, c as usize));
    }
    if moved[i as int].alive && occupants(moved, home).len() >= 2 {
        lemma_filtered_indices(moved.len(), stands_on(moved, home));
        assert(moved[i as int].placed(world));
        assert(buckets[home as int] == occupants(moved, home));
        assert(buckets[home as int].contains(i));
    }
}

/// In a world where no edge touches a dead colony, every ant that is alive
/// after a tick stands on a colony that is alive after it.
pub proof fn lemma_survivors_on_live_colonies(
    before: Seq<Ant>,
    world: WorldView,
    ants: Seq<Ant>,
    after: WorldView,
    events: Seq<DestructionView>,
)
    requires
        world.valid(),
        world.settled(),
        before.len() <= usize::MAX,
        all_placed(before, world),
        ticked(before, world, ants, after, events),
    ensures
        forall|i: int|
            0 <= i < ants.len() && (#[trigger] ants[i]).alive ==> after.alive[ants[i].current_colony as int],
{
    let moved = choose|moved: Seq<Ant>| #[trigger]
        all_moved(before, moved, world) && cleaned(moved, world, ants, after, events);
    let buckets = occupancy(moved, world.len());
    lemma_collision_threshold(moved, world, ants, after, events);
    assert forall|i: int| 0 <= i < ants.len() && (#[trigger] ants[i]).alive implies after.alive[ants[i].current_colony as int] by {
        assert(before[i].may_step_to(world, moved[i]));
        lemma_may_step_bounds(before[i], world, moved[i]);
        crate::movement::lemma_all_moved_placed(before, moved, world);
        lemma_struck(moved, world, i as usize);
        assert(ants[i] == moved[i]);
    }
}

/// What every run keeps, however long it is and whatever was drawn: the
/// number of ants and the colonies' names; a dead ant stays as it is and a
/// dead colony stays dead; a live ant has made one move in each tick, unless
/// it has made them all. And no run has more than [`MAX_MOVES`] ticks.
pub proof fn lemma_ran(
    start: Seq<Ant>,
    origin: WorldView,
    ticks: nat,
    ants: Seq<Ant>,
    world: WorldView,
    events: Seq<DestructionView>,
)
    requires
        origin.valid(),
        start.len() <= usize::MAX,
        all_placed(start, origin),
        ran(start, origin, ticks, ants, world, events),
    ensures
        ants.len() == start.len(),
        world.valid(),
        world.names == origin.names,
        all_placed(ants, world),
        origin.settled() ==> world.settled(),
        forall|c: int| 0 <= c < origin.len() && !origin.alive[c] ==> !(#[trigger] world.alive[c]),
        forall|i: int| 0 <= i < start.len() && !(#[trigger] start[i]).alive ==> ants[i] == start[i],
        forall|i: int|
            0 <= i < start.len() && (#[trigger] ants[i]).alive ==> start[i].alive && (ants[i].moves
                >= MAX_MOVES || ants[i].moves == start[i].moves + ticks),
        ticks <= MAX_MOVES,
    decreases ticks,
{
    if ticks > 0 {
        let (held, before, earlier, last) = choose|
            held: Seq<Ant>,
            before: WorldView,
            earlier: Seq<DestructionView>,
            last: Seq<DestructionView>,
        |
            #![trigger ticked(held, before, ants, world, last), joined(earlier, last)]
            ran(start, origin, (ticks - 1) as nat, held, before, earlier) && (ticks > 1
                ==> state_of(held) == SimulationState::Running) && ticked(
                held,
                before,
                ants,
                world,
                last,
            ) && events == joined(earlier, last);
        lemma_ran(start, origin, (ticks - 1) as nat, held, before, earlier);
        lemma_ticked(held, before, ants, world, last);
        if ticks > 1 {
            let i = choose|i: int|
                0 <= i < held.len() && (#[trigger] held[i]).alive && !(held[i].moves >= MAX_MOVES);
            assert(held[i].moves == start[i].moves + (ticks - 1));
        }
        assert forall|i: int| 0 <= i < start.len() && (#[trigger] ants[i]).alive implies start[i].alive
            && (ants[i].moves >= MAX_MOVES || ants[i].moves == start[i].moves + ticks) by {
            assert(held[i].alive);
        }
        assert forall|i: int| 0 <= i < start.len() && !(#[trigger] start[i]).alive implies ants[i]
            == start[i] by {
            assert(held[i] == start[i]);
        }
        assert forall|c: int| 0 <= c < origin.len() && !origin.alive[c] implies !(
        #[trigger] world.alive[c]) by {
            assert(!before.alive[c]);
        }
    }
}

/// The ants are conserved: after any number of ticks, the live and the dead
/// ants together are as many as the run began with.
pub proof fn lemma_conservation(
    start: Seq<Ant>,
    origin: WorldView,
    ticks: nat,
    ants: Seq<Ant>,
    world: WorldView,
    events: Seq<DestructionView>,
)
    requires
        origin.valid(),
        start.len() <= usize::MAX,
        all_placed(start, origin),
        ran(start, origin, ticks, ants, world, events),
    ensures
        alive_count(ants) + dead_count(ants) == start.len(),
{
    lemma_ran(start, origin, ticks, ants, world, events);
    lemma_counts(ants);
}

} // verus!
