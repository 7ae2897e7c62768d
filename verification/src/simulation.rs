//! The simulation: seeding the ants, one tick, and the loop that ticks until
//! the run is over.

use vstd::prelude::*;
use crate::ant::{lemma_may_step_bounds, Ant, MAX_MOVES};
use crate::cleanup::{
    collided, collisions, crowded, event_views, phase_cleanup, struck_down, Destruction,
    DestructionView,
};
use crate::movement::{
    all_moved, all_placed, bucket_views, indices, lemma_filtered_indices, occupancy, occupants,
    phase_move_and_detect, stands_on,
};
use crate::rng::{random_item, seeded_rng};
use crate::seq_lemmas::{lemma_filter_empty, lemma_filter_push};
use crate::world::{World, WorldView};

verus! {

/// The seed of the random source that places the ants.
pub const PLACEMENT_SEED: u64 = 12345;

/// Why a run is over.
#[derive(Debug, Clone, Copy, PartialEq, Eq, Structural)]
pub enum Outcome {
    /// Every ant is dead.
    AllDead,
    /// Some ants live, and each of them has made [`MAX_MOVES`] moves.
    MaxMovesReached,
}

/// Where a run stands after a tick.
#[derive(Debug, Clone, Copy, PartialEq, Eq, Structural)]
pub enum SimulationState {
    Running,
    Terminated(Outcome),
}

/// Why the ants could not be placed.
#[derive(Debug, Clone, Copy, PartialEq, Eq, Structural)]
pub enum ConfigError {
    /// The world has no live colony.
    NoLiveColony,
}

/// What a run leaves behind, besides the ants and the world: the colonies
/// destroyed, in the order in which they fell, the number of ticks, and why
/// the run ended.
#[derive(Debug)]
pub struct SimulationReport {
    pub events: Vec<Destruction>,
    pub ticks: u32,
    pub outcome: Outcome,
}

/// No ant is alive.
pub open spec fn all_dead(ants: Seq<Ant>) -> bool {
    forall|i: int| 0 <= i < ants.len() ==> !(#[trigger] ants[i]).alive
}

/// Every live ant has made [`MAX_MOVES`] moves.
pub open spec fn all_spent(ants: Seq<Ant>) -> bool {
    forall|i: int| 0 <= i < ants.len() && (#[trigger] ants[i]).alive ==> ants[i].moves >= MAX_MOVES
}

/// Where a run with these ants stands.
pub open spec fn state_of(ants: Seq<Ant>) -> SimulationState {
    if all_dead(ants) {
        SimulationState::Terminated(Outcome::AllDead)
    } else if all_spent(ants) {
        SimulationState::Terminated(Outcome::MaxMovesReached)
    } else {
        SimulationState::Running
    }
}

/// The test that colony `c` is alive.
pub open spec fn is_alive(world: WorldView) -> spec_fn(usize) -> bool {
    |c: usize| world.alive[c as int]
}

/// `ants` and `after` are what cleanup makes of the ants `moved` in `world`,
/// and `events` is what it records.
pub open spec fn cleaned(
    moved: Seq<Ant>,
    world: WorldView,
    ants: Seq<Ant>,
    after: WorldView,
    events: Seq<DestructionView>,
) -> bool {
    let buckets = occupancy(moved, world.len());
    &&& ants == struck_down(moved, buckets)
    &&& after == world.destroyed_all(collided(buckets))
    &&& events == collisions(buckets, world.names)
}

/// `ants` and `after` are what one tick can make of `before` and `world`,
/// with `events` recorded: the ants move, and what they have moved to is
/// cleaned up.
pub open spec fn ticked(
    before: Seq<Ant>,
    world: WorldView,
    ants: Seq<Ant>,
    after: WorldView,
    events: Seq<DestructionView>,
) -> bool {
    exists|moved: Seq<Ant>| #[trigger]
        all_moved(before, moved, world) && cleaned(moved, world, ants, after, events)
}

/// The records of earlier ticks, followed by those of the last one.
pub open spec fn joined(earlier: Seq<DestructionView>, last: Seq<DestructionView>) -> Seq<
    DestructionView,
> {
    earlier + last
}

/// `ants` and `world` are what `ticks` ticks can make of `start` and
/// `origin`, with `events` recorded on the way, where the run was not over
/// after any tick but the last.
pub open spec fn ran(
    start: Seq<Ant>,
    origin: WorldView,
    ticks: nat,
    ants: Seq<Ant>,
    world: WorldView,
    events: Seq<DestructionView>,
) -> bool
    decreases ticks,
{
    if ticks == 0 {
        ants == start && world == origin && events == Seq::<DestructionView>::empty()
    } else {
        exists|
            held: Seq<Ant>,
            before: WorldView,
            earlier: Seq<DestructionView>,
            last: Seq<DestructionView>,
        |
            #![trigger ticked(held, before, ants, world, last), joined(earlier, last)]
            ran(start, origin, (ticks - 1) as nat, held, before, earlier) && (ticks > 1
                ==> state_of(held) == SimulationState::Running) && ticked(
                held,
                before,
                ants,
                world,
                last,
            ) && events == joined(earlier, last)
    }
}

/// What a tick keeps and what it can change: the number of ants and the
/// colonies' names stay; a dead ant stays as it is and a dead colony stays
/// dead; a live ant has made one more move, unless it had made them all; and
/// where no edge touched a dead colony before the tick, none does after it.
pub proof fn lemma_ticked(
    before: Seq<Ant>,
    world: WorldView,
    ants: Seq<Ant>,
    after: WorldView,
    events: Seq<DestructionView>,
)
    requires
        world.valid(),
        before.len() <= usize::MAX,
        all_placed(before, world),
        ticked(before, world, ants, after, events),
    ensures
        ants.len() == before.len(),
        after.valid(),
        after.names == world.names,
        all_placed(ants, after),
        forall|i: int| 0 <= i < before.len() && !(#[trigger] before[i]).alive ==> ants[i] == before[i],
        forall|i: int|
            0 <= i < before.len() && (#[trigger] ants[i]).alive ==> before[i].alive && (ants[i].moves
                >= MAX_MOVES || ants[i].moves == before[i].moves + 1),
        forall|c: int| 0 <= c < world.len() && !world.alive[c] ==> !(#[trigger] after.alive[c]),
        world.settled() ==> after.settled(),
{
    let moved = choose|moved: Seq<Ant>| #[trigger]
        all_moved(before, moved, world) && cleaned(moved, world, ants, after, events);
    let buckets = occupancy(moved, world.len());
    let fallen = collided(buckets);
    lemma_filtered_indices(world.len(), crowded(buckets));
    world.lemma_destroyed_all(fallen);
    if world.settled() {
        world.lemma_destroyed_all_settled(fallen);
    }
    assert forall|i: int| 0 <= i < before.len() && !(#[trigger] before[i]).alive implies ants[i]
        == before[i] by {
        assert(before[i].may_step_to(world, moved[i]));
        lemma_may_step_bounds(before[i], world, moved[i]);
    }
    assert forall|i: int| 0 <= i < before.len() implies ((#[trigger] ants[i]).alive
        ==> before[i].alive && (ants[i].moves >= MAX_MOVES || ants[i].moves == before[i].moves
        + 1)) && ants[i].placed(after) by {
        assert(before[i].may_step_to(world, moved[i]));
        lemma_may_step_bounds(before[i], world, moved[i]);
    }
    assert forall|c: int| 0 <= c < world.len() && !world.alive[c] implies !(
    #[trigger] after.alive[c]) by {
        assert(after.alive[(c as usize) as int] <==> (world.alive[(c as usize) as int]
            && !fallen.contains(c as usize)));
    }
}

/// Tells where the run stands: over with every ant dead, over with every
/// live ant out of moves, or running.
pub fn simulation_state(ants: &Vec<Ant>) -> (state: SimulationState)
    ensures
        state == state_of(ants@),
{
    let n: usize = ants.len();
    let mut any_alive: bool = false;
    let mut any_left: bool = false;
    let mut i: usize = 0;
    while i < n
        invariant
            i <= n,
            n == ants@.len(),
            any_alive <==> exists|j: int| 0 <= j < i && (#[trigger] ants@[j]).alive,
            any_left <==> exists|j: int|
                0 <= j < i && (#[trigger] ants@[j]).alive && ants@[j].moves < MAX_MOVES,
        decreases n - i,
    {
        if ants[i].alive {
            any_alive = true;
            if ants[i].moves < MAX_MOVES {
                any_left = true;
            }
        }
        i += 1;
    }
    if !any_alive {
        SimulationState::Terminated(Outcome::AllDead)
    } else if !any_left {
        SimulationState::Terminated(Outcome::MaxMovesReached)
    } else {
        SimulationState::Running
    }
}

/// One tick: the ants move, collisions are found, and the colonies on which
/// ants have met are destroyed with those ants.
pub fn tick(ants: &mut Vec<Ant>, world: &mut World) -> (events: Vec<Destruction>)
    requires
        old(world).wf(),
        all_placed(old(ants)@, old(world)@),
    ensures
        final(world).wf(),
        all_placed(final(ants)@, final(world)@),
        old(world)@.settled() ==> final(world)@.settled(),
        ticked(old(ants)@, old(world)@, final(ants)@, final(world)@, event_views(events@)),
{
    let colony_ants = phase_move_and_detect(ants, world);
    let ghost moved = ants@;
    proof {
        assert(moved.len() == ants.len());
        world.lemma_view_valid();
        assert(bucket_views(colony_ants@).len() == colony_ants@.len());
        assert(occupancy(moved, world.size()).len() == world.size());
        assert forall|c: int, k: int|
            0 <= c < colony_ants@.len() && 0 <= k < colony_ants@[c]@.len() implies (
        #[trigger] colony_ants@[c]@[k]) < ants@.len() by {
            assert(bucket_views(colony_ants@)[c] == colony_ants@[c]@);
            assert(occupancy(moved, world.size())[c] == occupants(moved, c as usize));
            lemma_filtered_indices(moved.len(), stands_on(moved, c as usize));
        }
    }
    let events = phase_cleanup(ants, world, &colony_ants);
    proof {
        assert(all_moved(old(ants)@, moved, old(world)@));
        assert(cleaned(moved, old(world)@, ants@, world@, event_views(events@)));
        lemma_ticked(old(ants)@, old(world)@, ants@, world@, event_views(events@));
    }
    events
}

/// Runs the simulation: tick after tick, until every ant is dead or every
/// live ant has made [`MAX_MOVES`] moves. At least one tick is made, and at
/// most [`MAX_MOVES`].
pub fn simulate(ants: &mut Vec<Ant>, world: &mut World) -> (report: SimulationReport)
    requires
        old(world).wf(),
        all_placed(old(ants)@, old(world)@),
    ensures
        final(world).wf(),
        all_placed(final(ants)@, final(world)@),
        old(world)@.settled() ==> final(world)@.settled(),
        1 <= report.ticks <= MAX_MOVES,
        state_of(final(ants)@) == SimulationState::Terminated(report.outcome),
        ran(
            old(ants)@,
            old(world)@,
            report.ticks as nat,
            final(ants)@,
            final(world)@,
            event_views(report.events@),
        ),
{
    let ghost start = ants@;
    let ghost origin = world@;
    let mut events: Vec<Destruction> = Vec::new();
    let mut ticks: u32 = 0;
    proof {
        assert(ants@.len() == ants.len());
        assert(event_views(events@) =~= Seq::empty());
    }
    loop
        invariant
            start == old(ants)@,
            origin == old(world)@,
            origin.settled() ==> world@.settled(),
            world.wf(),
            all_placed(ants@, world@),
            ants@.len() <= usize::MAX,
            ticks < MAX_MOVES,
            forall|i: int| 0 <= i < ants@.len() && (#[trigger] ants@[i]).alive ==> ants@[i].moves >= ticks,
            ticks > 0 ==> state_of(ants@) == SimulationState::Running,
            ran(start, origin, ticks as nat, ants@, world@, event_views(events@)),
        decreases MAX_MOVES - ticks,
    {
        let ghost held = ants@;
        let ghost before = world@;
        let ghost earlier = event_views(events@);
        proof {
            world.lemma_view_valid();
        }
        let mut last = tick(ants, world);
        let ghost recorded = event_views(last@);
        events.append(&mut last);
        ticks = ticks + 1;
        proof {
            let n = ticks as nat;
            lemma_ticked(held, before, ants@, world@, recorded);
            assert(event_views(events@) =~= earlier + recorded);
            assert(ran(start, origin, (n - 1) as nat, held, before, earlier));
            assert(event_views(events@) == joined(earlier, recorded));
        }
        let state = simulation_state(ants);
        match state {
            SimulationState::Terminated(outcome) => {
                return SimulationReport { events, ticks, outcome };
            },
            SimulationState::Running => {
                proof {
                    let i = choose|i: int|
                        0 <= i < ants@.len() && (#[trigger] ants@[i]).alive && !(ants@[i].moves
                            >= MAX_MOVES);
                    assert(ants@[i].moves >= ticks);
                }
            },
        }
    }
}

/// The live colonies of `world`, in rising order.
pub fn live_colonies(world: &World) -> (ids: Vec<usize>)
    requires
        world.wf(),
    ensures
        ids@ == indices(world.size()).filter(is_alive(world@)),
{
    let n: usize = world.colonies.len();
    let mut ids: Vec<usize> = Vec::new();
    let mut c: usize = 0;
    proof {
        lemma_filter_empty(is_alive(world@));
        assert(indices(0) =~= Seq::empty());
    }
    while c < n
        invariant
            c <= n,
            n == world.size(),
            world.wf(),
            ids@ == indices(c as nat).filter(is_alive(world@)),
        decreases n - c,
    {
        proof {
            assert(indices((c + 1) as nat) =~= indices(c as nat).push(c));
            lemma_filter_push(indices(c as nat), c, is_alive(world@));
        }
        if world.alive[c] {
            ids.push(c);
        }
        c += 1;
    }
    ids
}

/// Places `n_ants` new ants, each on a live colony picked at random. Fails
/// if the world has no live colony, whatever `n_ants` is.
pub fn init_ants(world: &World, n_ants: usize) -> (result: Result<Vec<Ant>, ConfigError>)
    requires
        world.wf(),
    ensures
        result is Err <==> forall|c: int| 0 <= c < world.size() ==> !(#[trigger] world@.alive[c]),
        result matches Ok(ants) ==> {
            &&& ants@.len() == n_ants
            &&& all_placed(ants@, world@)
            &&& forall|i: int|
                0 <= i < ants@.len() ==> (#[trigger] ants@[i]).alive && ants@[i].moves == 0
                    && world@.alive[ants@[i].current_colony as int]
        },
{
    let colony_ids = live_colonies(world);
    proof {
        world.lemma_view_valid();
        lemma_filtered_indices(world.size(), is_alive(world@));
        if colony_ids@.len() > 0 {
            assert(colony_ids@.contains(colony_ids@[0]));
        }
        if exists|c: int| 0 <= c < world.size() && #[trigger] world@.alive[c] {
            let c = choose|c: int| 0 <= c < world.size() && #[trigger] world@.alive[c];
            assert(colony_ids@.contains(c as usize));
        }
    }
    if colony_ids.len() == 0 {
        return Err(ConfigError::NoLiveColony);
    }
    let mut ants: Vec<Ant> = Vec::with_capacity(n_ants);
    let mut rng = seeded_rng(PLACEMENT_SEED);
    let mut i: usize = 0;
    while i < n_ants
        invariant
            i <= n_ants,
            ants@.len() == i,
            colony_ids@.len() > 0,
            forall|c: usize|
                colony_ids@.contains(c) <==> (c < world.size() && world@.alive[c as int]),
            forall|j: int|
                0 <= j < ants@.len() ==> (#[trigger] ants@[j]).alive && ants@[j].moves == 0
                    && ants@[j].current_colony < world.size()
                    && world@.alive[ants@[j].current_colony as int],
        decreases n_ants - i,
    {
        let picked = random_item(&colony_ids, &mut rng);
        let colony: usize = picked.unwrap();
        ants.push(Ant::new(colony));
        i += 1;
    }
    proof {
        world.lemma_view_valid();
    }
    Ok(ants)
}

} // verus!
