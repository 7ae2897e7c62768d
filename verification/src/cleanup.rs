//! The cleanup phase: colonies on which ants have met are destroyed, and the
//! ants that met there die.

use vstd::prelude::*;
use crate::ant::Ant;
use crate::movement::{bucket_views, indices, lemma_filtered_indices};
use crate::seq_lemmas::{lemma_filter_empty, lemma_filter_push, lemma_push_contains};
use crate::world::World;

verus! {

/// The record of one destroyed colony: its id and name, and the first two
/// ants that were found on it.
#[derive(Debug, Clone, PartialEq, Eq)]
pub struct Destruction {
    pub colony: usize,
    pub colony_name: String,
    pub first_ant: usize,
    pub second_ant: usize,
}

/// A [`Destruction`] as contracts see it.
pub struct DestructionView {
    pub colony: usize,
    pub colony_name: Seq<char>,
    pub first_ant: usize,
    pub second_ant: usize,
}

impl View for Destruction {
    type V = DestructionView;

    open spec fn view(&self) -> DestructionView {
        DestructionView {
            colony: self.colony,
            colony_name: self.colony_name@,
            first_ant: self.first_ant,
            second_ant: self.second_ant,
        }
    }
}

/// A list of records as contracts see it.
pub open spec fn event_views(events: Seq<Destruction>) -> Seq<DestructionView> {
    Seq::new(events.len(), |k: int| events[k]@)
}

/// The test that bucket `c` holds two ants or more.
pub open spec fn crowded(buckets: Seq<Seq<usize>>) -> spec_fn(usize) -> bool {
    |c: usize| buckets[c as int].len() >= 2
}

/// The colonies whose bucket holds two ants or more, in rising order.
pub open spec fn collided(buckets: Seq<Seq<usize>>) -> Seq<usize> {
    indices(buckets.len()).filter(crowded(buckets))
}

/// Ant `i` stands in one of the first `upto` buckets, one that holds two
/// ants or more.
pub open spec fn struck_before(buckets: Seq<Seq<usize>>, upto: int, i: usize) -> bool {
    exists|c: int| 0 <= c < upto && buckets[c].len() >= 2 && #[trigger] buckets[c].contains(i)
}

/// Ant `i` stands in a bucket that holds two ants or more.
pub open spec fn struck(buckets: Seq<Seq<usize>>, i: usize) -> bool {
    struck_before(buckets, buckets.len() as int, i)
}

/// `ant`, dead.
pub open spec fn killed(ant: Ant) -> Ant {
    Ant { current_colony: ant.current_colony, moves: ant.moves, alive: false }
}

/// The ants after cleanup: those that stand in a crowded bucket are dead,
/// the others are as they were.
pub open spec fn struck_down(ants: Seq<Ant>, buckets: Seq<Seq<usize>>) -> Seq<Ant> {
    Seq::new(
        ants.len(),
        |i: int|
            if struck(buckets, i as usize) {
                killed(ants[i])
            } else {
                ants[i]
            },
    )
}

/// The record of the collision on colony `c`.
pub open spec fn collision(buckets: Seq<Seq<usize>>, names: Seq<Seq<char>>, c: usize)
    -> DestructionView {
    DestructionView {
        colony: c,
        colony_name: names[c as int],
        first_ant: buckets[c as int][0],
        second_ant: buckets[c as int][1],
    }
}

/// The records of one cleanup: one for each crowded bucket, in the order of
/// the colonies.
pub open spec fn collisions(buckets: Seq<Seq<usize>>, names: Seq<Seq<char>>) -> Seq<
    DestructionView,
> {
    Seq::new(collided(buckets).len(), |k: int| collision(buckets, names, collided(buckets)[k]))
}

/// Ant `i` is marked once the first `c` buckets and the first `j` entries
/// of bucket `c` have been gone through.
spec fn marked(buckets: Seq<Seq<usize>>, c: int, j: int, i: usize) -> bool {
    struck_before(buckets, c, i) || buckets[c].take(j).contains(i)
}

/// Going through a whole crowded bucket marks what the next bucket starts
/// from.
proof fn lemma_marked_bucket(buckets: Seq<Seq<usize>>, c: int, i: usize)
    requires
        0 <= c < buckets.len(),
    ensures
        buckets[c].len() >= 2 ==> (marked(buckets, c, buckets[c].len() as int, i)
            <==> struck_before(buckets, c + 1, i)),
        buckets[c].len() < 2 ==> (struck_before(buckets, c, i) <==> struck_before(
            buckets,
            c + 1,
            i,
        )),
        marked(buckets, c, 0, i) <==> struck_before(buckets, c, i),
{
    assert(buckets[c].take(buckets[c].len() as int) =~= buckets[c]);
    assert(buckets[c].take(0) =~= Seq::empty());
    if struck_before(buckets, c + 1, i) {
        let d = choose|d: int|
            0 <= d < c + 1 && buckets[d].len() >= 2 && #[trigger] buckets[d].contains(i);
        if d < c {
            assert(struck_before(buckets, c, i));
        }
    }
    if struck_before(buckets, c, i) {
        let d = choose|d: int|
            0 <= d < c && buckets[d].len() >= 2 && #[trigger] buckets[d].contains(i);
        assert(0 <= d < c + 1 && buckets[d].len() >= 2 && buckets[d].contains(i));
    }
}

/// The cleanup phase. Each colony whose bucket holds two ants or more is
/// recorded with the first two ants of its bucket, and the ants of the
/// bucket die. Then the recorded colonies are destroyed.
pub fn phase_cleanup(ants: &mut Vec<Ant>, world: &mut World, colony_ants: &Vec<Vec<usize>>) -> (events:
    Vec<Destruction>)
    requires
        old(world).wf(),
        colony_ants@.len() <= old(world).size(),
        forall|c: int, k: int|
            0 <= c < colony_ants@.len() && 0 <= k < colony_ants@[c]@.len() ==> (
            #[trigger] colony_ants@[c]@[k]) < old(ants)@.len(),
    ensures
        final(world).wf(),
        final(ants)@ == struck_down(old(ants)@, bucket_views(colony_ants@)),
        final(world)@ == old(world)@.destroyed_all(collided(bucket_views(colony_ants@))),
        event_views(events@) == collisions(bucket_views(colony_ants@), old(world)@.names),
{
    let ghost buckets = bucket_views(colony_ants@);
    let ghost names = world@.names;
    let ghost start = ants@;
    let mut destroyed: Vec<usize> = Vec::new();
    let mut events: Vec<Destruction> = Vec::new();
    let count: usize = colony_ants.len();
    let mut c: usize = 0;
    proof {
        assert(start.len() == ants.len());
        world.lemma_view_valid();
        lemma_filter_empty(crowded(buckets));
        assert(indices(0) =~= Seq::empty());
        assert forall|i: int| 0 <= i < ants@.len() implies #[trigger] ants@[i] == start[i] by {
            if struck_before(buckets, 0, i as usize) {
            }
        }
    }
    while c < count
        invariant
            c <= count,
            count == colony_ants@.len(),
            count <= world.size(),
            world.wf(),
            names == world@.names,
            buckets == bucket_views(colony_ants@),
            forall|d: int, k: int|
                0 <= d < colony_ants@.len() && 0 <= k < colony_ants@[d]@.len() ==> (
                #[trigger] colony_ants@[d]@[k]) < start.len(),
            ants@.len() == start.len() <= usize::MAX,
            forall|i: int|
                0 <= i < start.len() ==> #[trigger] ants@[i] == if struck_before(
                    buckets,
                    c as int,
                    i as usize,
                ) {
                    killed(start[i])
                } else {
                    start[i]
                },
            destroyed@ == indices(c as nat).filter(crowded(buckets)),
            events@.len() == destroyed@.len(),
            forall|k: int|
                0 <= k < events@.len() ==> (#[trigger] events@[k])@ == collision(
                    buckets,
                    names,
                    destroyed@[k],
                ),
        decreases count - c,
    {
        let ants_here = &colony_ants[c];
        proof {
            assert(indices((c + 1) as nat) =~= indices(c as nat).push(c));
            lemma_filter_push(indices(c as nat), c, crowded(buckets));
            assert(buckets[c as int] == ants_here@);
        }
        if ants_here.len() >= 2 {
            destroyed.push(c);
            let m: usize = ants_here.len();
            let mut j: usize = 0;
            proof {
                assert forall|i: int| 0 <= i < start.len() implies #[trigger] ants@[i] == if marked(
                    buckets,
                    c as int,
                    0,
                    i as usize,
                ) {
                    killed(start[i])
                } else {
                    start[i]
                } by {
                    lemma_marked_bucket(buckets, c as int, i as usize);
                }
            }
            while j < m
                invariant
                    j <= m,
                    m == ants_here@.len(),
                    c < count == colony_ants@.len(),
                    ants_here@ == colony_ants@[c as int]@,
                    buckets == bucket_views(colony_ants@),
                    forall|d: int, k: int|
                        0 <= d < colony_ants@.len() && 0 <= k < colony_ants@[d]@.len() ==> (
                        #[trigger] colony_ants@[d]@[k]) < start.len(),
                    ants@.len() == start.len() <= usize::MAX,
                    forall|i: int|
                        0 <= i < start.len() ==> #[trigger] ants@[i] == if marked(
                            buckets,
                            c as int,
                            j as int,
                            i as usize,
                        ) {
                            killed(start[i])
                        } else {
                            start[i]
                        },
                decreases m - j,
            {
                let index: usize = ants_here[j];
                let ghost held = ants@;
                assert(colony_ants@[c as int]@[j as int] < start.len());
                ants[index].alive = false;
                proof {
                    assert(buckets[c as int].take(j + 1) =~= buckets[c as int].take(j as int).push(
                        index,
                    ));
                    assert forall|i: int| 0 <= i < start.len() implies #[trigger] ants@[i]
                        == if marked(buckets, c as int, j + 1, i as usize) {
                        killed(start[i])
                    } else {
                        start[i]
                    } by {
                        lemma_push_contains(
                            buckets[c as int].take(j as int),
                            index,
                            i as usize,
                        );
                        assert(held[i] == if marked(buckets, c as int, j as int, i as usize) {
                            killed(start[i])
                        } else {
                            start[i]
                        });
                    }
                }
                j += 1;
            }
            events.push(
                Destruction {
                    colony: c,
                    colony_name: world.id_to_name[c].clone(),
                    first_ant: ants_here[0],
                    second_ant: ants_here[1],
                },
            );
        }
        proof {
            assert forall|i: int| 0 <= i < start.len() implies #[trigger] ants@[i]
                == if struck_before(buckets, c + 1, i as usize) {
                killed(start[i])
            } else {
                start[i]
            } by {
                lemma_marked_bucket(buckets, c as int, i as usize);
            }
        }
        c += 1;
    }
    proof {
        assert(ants@ =~= struck_down(start, buckets));
        assert(event_views(events@) =~= collisions(buckets, names));
        lemma_filtered_indices(count as nat, crowded(buckets));
    }
    let ghost before = world@;
    let mut k: usize = 0;
    while k < destroyed.len()
        invariant
            k <= destroyed@.len(),
            world.wf(),
            before.valid(),
            world.size() == before.len(),
            forall|j: int| 0 <= j < destroyed@.len() ==> (#[trigger] destroyed@[j]) < before.len(),
            world@ == before.destroyed_all(destroyed@.take(k as int)),
        decreases destroyed.len() - k,
    {
        proof {
            assert(destroyed@.take(k + 1).drop_last() =~= destroyed@.take(k as int));
            assert forall|j: int| 0 <= j < k implies (#[trigger] destroyed@.take(k as int)[j])
                < before.len() by {
                assert(destroyed@.take(k as int)[j] == destroyed@[j]);
            }
            before.lemma_destroyed_all(destroyed@.take(k as int));
            world.lemma_view_valid();
        }
        world.destroy_colony(destroyed[k]);
        proof {
            world.lemma_view_valid();
            world@.lemma_destroyed_all(Seq::empty());
            before.destroyed_all(destroyed@.take(k as int)).lemma_destroyed(destroyed@[k as int] as int);
        }
        k += 1;
    }
    assert(destroyed@.take(destroyed@.len() as int) =~= destroyed@);
    events
}

} // verus!
