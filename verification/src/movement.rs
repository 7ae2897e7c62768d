//! The movement phase and collision detection.
//!
//! The ants are moved in chunks of [`CHUNK_SIZE`], each chunk with a random
//! source of its own, seeded from the chunk's index; the chunks run in
//! parallel. Collisions are then found in one pass over the ants, in order.

use vstd::prelude::*;
use rayon::iter::{IndexedParallelIterator, ParallelIterator};
use rayon::slice::ParallelSliceMut;
use crate::ant::{lemma_may_step_bounds, update_ant, Ant};
use crate::rng::seeded_rng;
use crate::seq_lemmas::{lemma_filter_empty, lemma_filter_push};
use crate::world::{World, WorldView};

verus! {

/// The number of ants in a chunk; the last chunk may hold fewer.
pub const CHUNK_SIZE: usize = 1000;

/// The seed of chunk 0. Chunk `i` is seeded with this plus `i`.
pub const MOVEMENT_SEED: u64 = 12345;

/// Every live ant of `ants` stands on a colony of `world`.
pub open spec fn all_placed(ants: Seq<Ant>, world: WorldView) -> bool {
    forall|i: int| 0 <= i < ants.len() ==> (#[trigger] ants[i]).placed(world)
}

/// `after` is what one movement phase in `world` can make of `before`: the
/// same number of ants, each one step on.
pub open spec fn all_moved(before: Seq<Ant>, after: Seq<Ant>, world: WorldView) -> bool {
    &&& after.len() == before.len()
    &&& forall|i: int| 0 <= i < before.len() ==> (#[trigger] before[i]).may_step_to(world, after[i])
}

/// Chunk number `index` of `ants`, cut into chunks of `size`.
pub open spec fn chunk_of(ants: Seq<Ant>, index: int, size: int) -> Seq<Ant> {
    ants.subrange(
        index * size,
        if (index + 1) * size <= ants.len() {
            (index + 1) * size
        } else {
            ants.len() as int
        },
    )
}

/// Moves every ant of one chunk one step, in order, with a random source
/// seeded for this chunk.
pub fn move_chunk(chunk: &mut [Ant], world: &World, chunk_index: usize)
    requires
        world.wf(),
        all_placed(old(chunk)@, world@),
        chunk_index + MOVEMENT_SEED <= u64::MAX,
    ensures
        all_moved(old(chunk)@, final(chunk)@, world@),
{
    let mut rng = seeded_rng(MOVEMENT_SEED + chunk_index as u64);
    let n: usize = chunk.len();
    let mut i: usize = 0;
    while i < n
        invariant
            i <= n,
            n == chunk@.len(),
            n == old(chunk)@.len(),
            world.wf(),
            forall|j: int| i <= j < n ==> chunk@[j] == old(chunk)@[j],
            forall|j: int| 0 <= j < n ==> (#[trigger] old(chunk)@[j]).placed(world@),
            forall|j: int| 0 <= j < i ==> (#[trigger] old(chunk)@[j]).may_step_to(world@, chunk@[j]),
        decreases n - i,
    {
        update_ant(&mut chunk[i], world, &mut rng);
        i += 1;
    }
}

/// `par_chunks_mut`, `enumerate` and `for_each` of rayon: the ants are cut
/// into chunks of `chunk_size`, the last one shorter if need be, and
/// `move_chunk` runs once on each chunk with the chunk's index. So each chunk
/// ends as `move_chunk` leaves it, which is all that is claimed here.
///
/// `par_chunks_mut` panics on a chunk size of zero. The other conditions are
/// those of `move_chunk`, for every chunk: the bound on the number of ants
/// keeps the seed of the last chunk within `u64`.
#[verifier::external_body]
fn move_chunks(ants: &mut Vec<Ant>, world: &World, chunk_size: usize)
    requires
        chunk_size > 0,
        world.wf(),
        all_placed(old(ants)@, world@),
        old(ants)@.len() / (chunk_size as nat) + MOVEMENT_SEED <= u64::MAX,
    ensures
        final(ants)@.len() == old(ants)@.len(),
        forall|index: int|
            0 <= index && index * chunk_size < old(ants)@.len() ==> all_moved(
                #[trigger] chunk_of(old(ants)@, index, chunk_size as int),
                chunk_of(final(ants)@, index, chunk_size as int),
                world@,
            ),
{
    ants.par_chunks_mut(chunk_size).enumerate().for_each(
        |(index, chunk)| move_chunk(chunk, world, index),
    );
}

/// The movement phase: every ant takes one step.
pub fn phase_move(ants: &mut Vec<Ant>, world: &World)
    requires
        world.wf(),
        all_placed(old(ants)@, world@),
    ensures
        all_moved(old(ants)@, final(ants)@, world@),
{
    proof {
        assert(ants@.len() == ants.len());
        assert(ants@.len() / 1000 + 12345 <= u64::MAX);
    }
    move_chunks(ants, world, CHUNK_SIZE);
    proof {
        let before = old(ants)@;
        let after = ants@;
        assert forall|i: int| 0 <= i < before.len() implies (#[trigger] before[i]).may_step_to(
            world@,
            after[i],
        ) by {
            let index = i / 1000;
            let from = chunk_of(before, index, 1000);
            let to = chunk_of(after, index, 1000);
            assert(all_moved(from, to, world@));
            assert(from[i - index * 1000] == before[i]);
            assert(to[i - index * 1000] == after[i]);
        }
    }
}

/// The numbers below `n`, in rising order.
pub open spec fn indices(n: nat) -> Seq<usize> {
    Seq::new(n, |i: int| i as usize)
}

/// The test that ant number `i` of `ants` is alive and stands on `colony`.
pub open spec fn stands_on(ants: Seq<Ant>, colony: usize) -> spec_fn(usize) -> bool {
    |i: usize| ants[i as int].alive && ants[i as int].current_colony == colony
}

/// The live ants on `colony`, by index, in rising order.
pub open spec fn occupants(ants: Seq<Ant>, colony: usize) -> Seq<usize> {
    indices(ants.len()).filter(stands_on(ants, colony))
}

/// For each of `colonies` colonies, the live ants on it.
pub open spec fn occupancy(ants: Seq<Ant>, colonies: nat) -> Seq<Seq<usize>> {
    Seq::new(colonies, |c: int| occupants(ants, c as usize))
}

/// What a list of buckets holds, bucket by bucket.
pub open spec fn bucket_views(buckets: Seq<Vec<usize>>) -> Seq<Seq<usize>> {
    Seq::new(buckets.len(), |c: int| buckets[c]@)
}

/// The numbers below `n` that pass `keep` are below `n` and stand in rising
/// order.
pub proof fn lemma_filtered_indices(n: nat, keep: spec_fn(usize) -> bool)
    requires
        n <= usize::MAX,
    ensures
        forall|k: int|
            0 <= k < indices(n).filter(keep).len() ==> (#[trigger] indices(n).filter(keep)[k]) < n,
        forall|j: int, k: int|
            0 <= j < k < indices(n).filter(keep).len() ==> indices(n).filter(keep)[j] < indices(
                n,
            ).filter(keep)[k],
        forall|i: usize| indices(n).filter(keep).contains(i) <==> (i < n && keep(i)),
    decreases n,
{
    if n == 0 {
        lemma_filter_empty(keep);
        assert(indices(0) =~= Seq::empty());
    } else {
        let m = (n - 1) as nat;
        lemma_filtered_indices(m, keep);
        assert(indices(n) =~= indices(m).push(m as usize));
        lemma_filter_push(indices(m), m as usize, keep);
        let before = indices(m).filter(keep);
        let now = indices(n).filter(keep);
        assert forall|i: usize| now.contains(i) <==> (i < n && keep(i)) by {
            crate::seq_lemmas::lemma_push_contains(before, m as usize, i);
        }
    }
}

/// The occupants of a colony are exactly the live ants that stand on it,
/// each once, in rising order.
pub proof fn lemma_occupants(ants: Seq<Ant>, colony: usize)
    requires
        ants.len() <= usize::MAX,
    ensures
        forall|i: usize|
            occupants(ants, colony).contains(i) <==> (i < ants.len() && ants[i as int].alive
                && ants[i as int].current_colony == colony),
        forall|j: int, k: int|
            0 <= j < k < occupants(ants, colony).len() ==> occupants(ants, colony)[j] < occupants(
                ants,
                colony,
            )[k],
{
    lemma_filtered_indices(ants.len(), stands_on(ants, colony));
}

/// Collision detection: one pass over the ants that files each live ant
/// under its colony. Bucket `c` of the result lists the live ants on colony
/// `c` in the order of their indices.
pub fn detect_collisions(ants: &Vec<Ant>, colonies: usize) -> (buckets: Vec<Vec<usize>>)
    requires
        forall|i: int|
            0 <= i < ants@.len() && (#[trigger] ants@[i]).alive ==> ants@[i].current_colony
                < colonies,
    ensures
        bucket_views(buckets@) == occupancy(ants@, colonies as nat),
{
    let mut buckets: Vec<Vec<usize>> = Vec::with_capacity(colonies);
    let mut c: usize = 0;
    while c < colonies
        invariant
            c <= colonies,
            buckets@.len() == c,
            forall|j: int| 0 <= j < c ==> (#[trigger] buckets@[j])@ == Seq::<usize>::empty(),
        decreases colonies - c,
    {
        buckets.push(Vec::new());
        c += 1;
    }
    let n: usize = ants.len();
    let mut i: usize = 0;
    proof {
        assert(indices(0) =~= Seq::empty());
        assert forall|j: int| 0 <= j < colonies implies (#[trigger] buckets@[j])@ == indices(
            0,
        ).filter(stands_on(ants@, j as usize)) by {
            lemma_filter_empty(stands_on(ants@, j as usize));
        }
    }
    while i < n
        invariant
            i <= n,
            n == ants@.len(),
            buckets@.len() == colonies,
            forall|j: int|
                0 <= j < ants@.len() && (#[trigger] ants@[j]).alive ==> ants@[j].current_colony
                    < colonies,
            forall|j: int|
                0 <= j < colonies ==> (#[trigger] buckets@[j])@ == indices(i as nat).filter(
                    stands_on(ants@, j as usize),
                ),
        decreases n - i,
    {
        let ghost held = buckets@;
        if ants[i].alive {
            buckets[ants[i].current_colony].push(i);
        }
        proof {
            assert(indices((i + 1) as nat) =~= indices(i as nat).push(i));
            assert forall|j: int| 0 <= j < colonies implies (#[trigger] buckets@[j])@ == indices(
                (i + 1) as nat,
            ).filter(stands_on(ants@, j as usize)) by {
                lemma_filter_push(indices(i as nat), i, stands_on(ants@, j as usize));
                assert(held[j]@ == indices(i as nat).filter(stands_on(ants@, j as usize)));
            }
        }
        i += 1;
    }
    assert(bucket_views(buckets@) =~= occupancy(ants@, colonies as nat));
    buckets
}

/// Movement, then collision detection: every ant takes one step, and the
/// ants that are alive after it are filed under their colonies.
pub fn phase_move_and_detect(ants: &mut Vec<Ant>, world: &World) -> (colony_ants: Vec<Vec<usize>>)
    requires
        world.wf(),
        all_placed(old(ants)@, world@),
    ensures
        all_moved(old(ants)@, final(ants)@, world@),
        all_placed(final(ants)@, world@),
        bucket_views(colony_ants@) == occupancy(final(ants)@, world.size()),
{
    phase_move(ants, world);
    proof {
        world.lemma_view_valid();
        lemma_all_moved_placed(old(ants)@, ants@, world@);
    }
    detect_collisions(ants, world.colonies.len())
}

/// The movement phase leaves every live ant on a colony of the world.
pub proof fn lemma_all_moved_placed(before: Seq<Ant>, after: Seq<Ant>, world: WorldView)
    requires
        world.valid(),
        all_placed(before, world),
        all_moved(before, after, world),
    ensures
        all_placed(after, world),
{
    assert forall|i: int| 0 <= i < after.len() implies (#[trigger] after[i]).placed(world) by {
        assert(before[i].may_step_to(world, after[i]));
        lemma_may_step_bounds(before[i], world, after[i]);
    }
}

} // verus!
