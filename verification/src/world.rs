//! The world: a directed graph of named colonies, held in an arena.
//!
//! A colony is known by its index, which never changes. Destroying a colony
//! marks it dead and cuts every edge that touches it; the colony keeps its
//! slot, so indices held elsewhere stay good.

use vstd::prelude::*;
use vstd::hash_map::StringHashMap;
use crate::seq_lemmas::{
    lemma_filter_agree, lemma_filter_all, lemma_filter_contains, lemma_filter_empty,
    lemma_filter_no_duplicates, lemma_filter_push, lemma_filter_twice, lemma_push_contains,
};

verus! {

/// A compass label of an edge.
#[derive(Debug, Clone, Copy, PartialEq, Eq, Hash, Structural)]
pub enum Direction {
    North,
    South,
    East,
    West,
}

impl Direction {
    /// The word for this direction in map text.
    pub open spec fn label(self) -> Seq<char> {
        match self {
            Direction::North => "north"@,
            Direction::South => "south"@,
            Direction::East => "east"@,
            Direction::West => "west"@,
        }
    }

    /// The word for this direction in map text.
    pub fn name(self) -> (word: &'static str)
        ensures
            word@ == self.label(),
    {
        match self {
            Direction::North => "north",
            Direction::South => "south",
            Direction::East => "east",
            Direction::West => "west",
        }
    }
}

/// One end of an edge as a colony stores it: the label and the colony at the
/// other end.
pub type Edge = (Direction, usize);

/// What a colony knows of itself: the edges that leave it, in the order in
/// which they were added.
#[derive(Debug, Clone)]
pub struct ColonyData {
    pub outgoing: Vec<Edge>,
}

/// The graph of colonies.
///
/// `colonies`, `alive`, `id_to_name` and `reverse_links` are indexed by colony
/// id. `reverse_links[t]` is a set, kept as a list without repetition: it
/// holds `(dir, c)` once for every edge `(dir, t)` that leaves colony `c`,
/// however often the edge stands among the edges of `c`.
pub struct World {
    pub colonies: Vec<ColonyData>,
    pub alive: Vec<bool>,
    pub id_to_name: Vec<String>,
    pub colony_name_to_id: StringHashMap<usize>,
    pub reverse_links: Vec<Vec<Edge>>,
}

/// The world as contracts see it: names, liveness and outgoing edges by
/// colony id. The name index and the reverse links are derived from these
/// and are tied to them by [`World::wf`].
#[verifier::ext_equal]
pub struct WorldView {
    pub names: Seq<Seq<char>>,
    pub alive: Seq<bool>,
    pub edges: Seq<Seq<Edge>>,
}

/// The test that keeps every edge but `(dir, other)`.
pub open spec fn not_edge(dir: Direction, other: usize) -> spec_fn(Edge) -> bool {
    |e: Edge| !(e.0 == dir && e.1 == other)
}

/// The test that keeps every edge whose far end is not `other`.
pub open spec fn not_to(other: usize) -> spec_fn(Edge) -> bool {
    |e: Edge| e.1 != other
}

/// The test that drops an edge to `y` whose label stands in `done` beside
/// `c`, and keeps every other edge. With `done` a part of `y`'s reverse links
/// it tells which of `c`'s edges are still to be cut.
spec fn not_cut(done: Seq<Edge>, c: usize, y: usize) -> spec_fn(Edge) -> bool {
    |e: Edge| !(e.1 == y && done.contains((e.0, c)))
}

/// With nothing done, nothing is cut.
proof fn lemma_cut_start(s: Seq<Edge>, c: usize, y: usize)
    ensures
        s.filter(not_cut(Seq::empty(), c, y)) == s,
{
    lemma_filter_all(s, not_cut(Seq::empty(), c, y));
}

/// One more entry `e` of the list is done: the colony that `e` names loses
/// its edges `(e.0, y)`, and nothing changes for the others.
proof fn lemma_cut_step(s: Seq<Edge>, done: Seq<Edge>, e: Edge, c: usize, y: usize)
    ensures
        c == e.1 ==> s.filter(not_cut(done, c, y)).filter(not_edge(e.0, y)) == s.filter(
            not_cut(done.push(e), c, y),
        ),
        c != e.1 ==> s.filter(not_cut(done, c, y)) == s.filter(not_cut(done.push(e), c, y)),
{
    let before = not_cut(done, c, y);
    let after = not_cut(done.push(e), c, y);
    if c == e.1 {
        assert forall|a: Edge| s.contains(a) implies after(a) == (before(a) && not_edge(e.0, y)(a)) by {
            lemma_push_contains(done, e, (a.0, c));
        }
        lemma_filter_twice(s, before, not_edge(e.0, y), after);
    } else {
        assert forall|a: Edge| s.contains(a) implies before(a) == after(a) by {
            lemma_push_contains(done, e, (a.0, c));
        }
        lemma_filter_agree(s, before, after);
    }
}

/// Once the whole list is done, and the list names `c` beside the label of
/// each of its edges to `y`, exactly the edges to `y` are cut.
proof fn lemma_cut_done(s: Seq<Edge>, done: Seq<Edge>, c: usize, y: usize)
    requires
        forall|a: Edge| s.contains(a) && a.1 == y ==> done.contains((a.0, c)),
    ensures
        s.filter(not_cut(done, c, y)) == s.filter(not_to(y)),
{
    lemma_filter_agree(s, not_cut(done, c, y), not_to(y));
}

/// Takes every occurrence of the edge `(dir, other)` out of `edges`. What
/// stays keeps its order.
fn remove_edge(edges: &mut Vec<Edge>, dir: Direction, other: usize)
    ensures
        final(edges)@ == old(edges)@.filter(not_edge(dir, other)),
{
    let mut kept: Vec<Edge> = Vec::new();
    let mut i: usize = 0;
    proof {
        lemma_filter_empty(not_edge(dir, other));
        assert(edges@.take(0) =~= Seq::empty());
    }
    while i < edges.len()
        invariant
            i <= edges.len(),
            kept@ == edges@.take(i as int).filter(not_edge(dir, other)),
        decreases edges.len() - i,
    {
        let e: Edge = edges[i];
        proof {
            lemma_filter_push(edges@.take(i as int), e, not_edge(dir, other));
            assert(edges@.take(i + 1) =~= edges@.take(i as int).push(e));
        }
        if !(e.0 == dir && e.1 == other) {
            kept.push(e);
        }
        i += 1;
    }
    assert(edges@.take(i as int) =~= edges@);
    *edges = kept;
}

/// Tells whether the edge `(dir, other)` stands in `edges`.
fn holds_edge(edges: &Vec<Edge>, dir: Direction, other: usize) -> (found: bool)
    ensures
        found == edges@.contains((dir, other)),
{
    let mut i: usize = 0;
    while i < edges.len()
        invariant
            i <= edges.len(),
            forall|j: int| 0 <= j < i ==> edges@[j] != (dir, other),
        decreases edges.len() - i,
    {
        let e: Edge = edges[i];
        if e.0 == dir && e.1 == other {
            assert(edges@[i as int] == (dir, other));
            return true;
        }
        i += 1;
    }
    false
}

impl WorldView {
    /// The number of colonies, dead ones included.
    pub open spec fn len(self) -> nat {
        self.names.len()
    }

    /// The three sequences have one length that a `usize` can hold, no name
    /// occurs twice, and every edge leads to a colony of this world.
    pub open spec fn valid(self) -> bool {
        &&& self.names.len() <= usize::MAX
        &&& self.alive.len() == self.names.len()
        &&& self.edges.len() == self.names.len()
        &&& forall|i: int, j: int|
            0 <= i < j < self.names.len() ==> self.names[i] != self.names[j]
        &&& forall|c: int, k: int|
            0 <= c < self.edges.len() && 0 <= k < self.edges[c].len() ==> (
            #[trigger] self.edges[c][k]).1 < self.names.len()
    }

    /// The world without colonies.
    pub open spec fn empty() -> WorldView {
        WorldView { names: Seq::empty(), alive: Seq::empty(), edges: Seq::empty() }
    }

    /// This world with one more colony: alive, without edges, under the next
    /// free id.
    pub open spec fn with_colony(self, name: Seq<char>) -> WorldView {
        WorldView {
            names: self.names.push(name),
            alive: self.alive.push(true),
            edges: self.edges.push(Seq::empty()),
        }
    }

    /// This world once `name` is known in it: unchanged if a colony has the
    /// name, else with a new colony of that name.
    pub open spec fn interned(self, name: Seq<char>) -> WorldView {
        if self.names.contains(name) {
            self
        } else {
            self.with_colony(name)
        }
    }

    /// The id of the colony called `name`.
    pub open spec fn id_of(self, name: Seq<char>) -> int
        recommends
            self.names.contains(name),
    {
        self.names.index_of(name)
    }

    /// This world with the edge `(dir, to)` added at the end of `from`'s
    /// edges.
    pub open spec fn with_edge(self, from: int, dir: Direction, to: usize) -> WorldView {
        WorldView {
            names: self.names,
            alive: self.alive,
            edges: self.edges.update(from, self.edges[from].push((dir, to))),
        }
    }

    /// This world after colony `y` was destroyed. A dead colony stays as it
    /// is. A live one is marked dead, loses its own edges, and every other
    /// colony loses its edges to `y`.
    pub open spec fn destroyed(self, y: int) -> WorldView {
        if !self.alive[y] {
            self
        } else {
            WorldView {
                names: self.names,
                alive: self.alive.update(y, false),
                edges: Seq::new(
                    self.edges.len(),
                    |c: int|
                        if c == y {
                            Seq::<Edge>::empty()
                        } else {
                            self.edges[c].filter(not_to(y as usize))
                        },
                ),
            }
        }
    }
}

impl WorldView {
    /// This world after the colonies of `ids` were destroyed one after
    /// another, the first of the list first.
    pub open spec fn destroyed_all(self, ids: Seq<usize>) -> WorldView
        decreases ids.len(),
    {
        if ids.len() == 0 {
            self
        } else {
            self.destroyed_all(ids.drop_last()).destroyed(ids.last() as int)
        }
    }

    /// Destroying a colony keeps the world valid and every name in place. No
    /// colony comes back to life, and only `y` can die.
    pub proof fn lemma_destroyed(self, y: int)
        requires
            self.valid(),
            0 <= y < self.len(),
        ensures
            self.destroyed(y).valid(),
            self.destroyed(y).names == self.names,
            self.destroyed(y).alive == self.alive.update(y, false),
            !self.alive[y] ==> self.destroyed(y) == self,
    {
        let after = self.destroyed(y);
        if self.alive[y] {
            assert forall|c: int, k: int|
                0 <= c < after.edges.len() && 0 <= k < after.edges[c].len() implies (
            #[trigger] after.edges[c][k]).1 < after.names.len() by {
                let e = after.edges[c][k];
                assert(after.edges[c].contains(e));
                lemma_filter_contains(self.edges[c], not_to(y as usize), e);
                let j = self.edges[c].index_of(e);
                assert(self.edges[c][j].1 < self.names.len());
            }
        } else {
            assert(self.alive.update(y, false) =~= self.alive);
        }
    }

    /// Destroying a list of colonies keeps the world valid and every name in
    /// place. The colonies that are alive afterwards are those that were
    /// alive before and are not in the list.
    pub proof fn lemma_destroyed_all(self, ids: Seq<usize>)
        requires
            self.valid(),
            forall|k: int| 0 <= k < ids.len() ==> (#[trigger] ids[k]) < self.len(),
        ensures
            self.destroyed_all(ids).valid(),
            self.destroyed_all(ids).names == self.names,
            self.destroyed_all(ids).alive.len() == self.alive.len(),
            forall|c: usize|
                c < self.len() ==> (#[trigger] self.destroyed_all(ids).alive[c as int] <==> (
                self.alive[c as int] && !ids.contains(c))),
        decreases ids.len(),
    {
        if ids.len() > 0 {
            let front = ids.drop_last();
            let y = ids.last();
            assert(ids[ids.len() - 1] == y);
            assert forall|k: int| 0 <= k < front.len() implies (#[trigger] front[k]) < self.len() by {
                assert(front[k] == ids[k]);
            }
            self.lemma_destroyed_all(front);
            let mid = self.destroyed_all(front);
            mid.lemma_destroyed(y as int);
            assert(ids =~= front.push(y));
            assert forall|c: usize| c < self.len() implies (#[trigger] self.destroyed_all(
                ids,
            ).alive[c as int] <==> (self.alive[c as int] && !ids.contains(c))) by {
                lemma_push_contains(front, y, c);
                assert(mid.alive[c as int] <==> (self.alive[c as int] && !front.contains(c)));
            }
        }
    }
}

/// The test that keeps every edge but those to a colony of `ids` that is
/// alive in `alive`.
pub open spec fn not_into(ids: Seq<usize>, alive: Seq<bool>) -> spec_fn(Edge) -> bool {
    |e: Edge| !(alive[e.1 as int] && ids.contains(e.1))
}

impl WorldView {
    /// No edge touches a dead colony: a dead colony has no edges, and no
    /// edge leads to one.
    pub open spec fn settled(self) -> bool {
        &&& forall|c: int|
            0 <= c < self.edges.len() && !self.alive[c] ==> (#[trigger] self.edges[c]).len() == 0
        &&& forall|c: int, k: int|
            0 <= c < self.edges.len() && 0 <= k < self.edges[c].len() ==> self.alive[(
            #[trigger] self.edges[c][k]).1 as int]
    }

    /// Every colony is alive.
    pub open spec fn all_alive(self) -> bool {
        forall|c: int| 0 <= c < self.alive.len() ==> #[trigger] self.alive[c]
    }

    /// Where every colony is alive, no edge touches a dead one.
    pub proof fn lemma_all_alive_settled(self)
        requires
            self.valid(),
            self.all_alive(),
        ensures
            self.settled(),
    {
        assert forall|c: int, k: int|
            0 <= c < self.edges.len() && 0 <= k < self.edges[c].len() implies self.alive[(
        #[trigger] self.edges[c][k]).1 as int] by {
            assert(self.edges[c][k].1 < self.names.len());
        }
    }

    /// Interning a name twice is interning it once.
    pub proof fn lemma_interned_twice(self, name: Seq<char>)
        ensures
            self.interned(name).interned(name) == self.interned(name),
    {
        if !self.names.contains(name) {
            assert(self.with_colony(name).names[self.names.len() as int] == name);
        }
    }

    /// Destroying a colony leaves no edge that touches a dead colony, if
    /// there was none before.
    pub proof fn lemma_destroyed_settled(self, y: int)
        requires
            self.valid(),
            self.settled(),
            0 <= y < self.len(),
        ensures
            self.destroyed(y).settled(),
    {
        let after = self.destroyed(y);
        if self.alive[y] {
            assert forall|c: int|
                0 <= c < after.edges.len() && !after.alive[c] implies (#[trigger] after.edges[c]).len()
                == 0 by {
                if c != y {
                    assert(self.edges[c].len() == 0);
                    self.edges[c].lemma_filter_len(not_to(y as usize));
                }
            }
            assert forall|c: int, k: int|
                0 <= c < after.edges.len() && 0 <= k < after.edges[c].len() implies after.alive[(
            #[trigger] after.edges[c][k]).1 as int] by {
                let e = after.edges[c][k];
                assert(after.edges[c].contains(e));
                lemma_filter_contains(self.edges[c], not_to(y as usize), e);
                let j = self.edges[c].index_of(e);
                assert(self.alive[self.edges[c][j].1 as int]);
            }
        }
    }

    /// Destroying a list of colonies leaves no edge that touches a dead
    /// colony, if there was none before.
    pub proof fn lemma_destroyed_all_settled(self, ids: Seq<usize>)
        requires
            self.valid(),
            self.settled(),
            forall|k: int| 0 <= k < ids.len() ==> (#[trigger] ids[k]) < self.len(),
        ensures
            self.destroyed_all(ids).settled(),
        decreases ids.len(),
    {
        if ids.len() > 0 {
            let front = ids.drop_last();
            assert forall|k: int| 0 <= k < front.len() implies (#[trigger] front[k]) < self.len() by {
                assert(front[k] == ids[k]);
            }
            assert(ids[ids.len() - 1] == ids.last());
            self.lemma_destroyed_all(front);
            self.lemma_destroyed_all_settled(front);
            self.destroyed_all(front).lemma_destroyed_settled(ids.last() as int);
        }
    }

    /// What destroying a list of colonies leaves of the edges: a colony that
    /// fell has none, and every other colony has lost its edges to the
    /// colonies that fell. A colony falls if it was alive and is in the list.
    pub proof fn lemma_destroyed_all_edges(self, ids: Seq<usize>)
        requires
            self.valid(),
            forall|k: int| 0 <= k < ids.len() ==> (#[trigger] ids[k]) < self.len(),
        ensures
            self.destroyed_all(ids).edges.len() == self.edges.len(),
            forall|c: usize|
                c < self.len() ==> #[trigger] self.destroyed_all(ids).edges[c as int]
                    == if self.alive[c as int] && ids.contains(c) {
                    Seq::<Edge>::empty()
                } else {
                    self.edges[c as int].filter(not_into(ids, self.alive))
                },
        decreases ids.len(),
    {
        if ids.len() == 0 {
            assert forall|c: usize| c < self.len() implies #[trigger] self.edges[c as int]
                == self.edges[c as int].filter(not_into(ids, self.alive)) by {
                lemma_filter_all(self.edges[c as int], not_into(ids, self.alive));
            }
        } else {
            let front = ids.drop_last();
            let y = ids.last();
            assert(ids[ids.len() - 1] == y);
            assert forall|k: int| 0 <= k < front.len() implies (#[trigger] front[k]) < self.len() by {
                assert(front[k] == ids[k]);
            }
            self.lemma_destroyed_all(front);
            self.lemma_destroyed_all_edges(front);
            let mid = self.destroyed_all(front);
            assert(ids =~= front.push(y));
            assert(mid.alive[y as int] <==> (self.alive[y as int] && !front.contains(y)));
            assert forall|c: usize| c < self.len() implies #[trigger] self.destroyed_all(
                ids,
            ).edges[c as int] == if self.alive[c as int] && ids.contains(c) {
                Seq::<Edge>::empty()
            } else {
                self.edges[c as int].filter(not_into(ids, self.alive))
            } by {
                let s = self.edges[c as int];
                let now = not_into(ids, self.alive);
                let then = not_into(front, self.alive);
                lemma_push_contains(front, y, c);
                assert forall|e: Edge| #[trigger] now(e) == (then(e) && !(self.alive[e.1 as int]
                    && e.1 == y && !front.contains(y))) by {
                    lemma_push_contains(front, y, e.1);
                }
                if mid.alive[y as int] {
                    if c != y {
                        if self.alive[c as int] && front.contains(c) {
                            lemma_filter_empty(not_to(y));
                        } else {
                            lemma_filter_twice(s, then, not_to(y), now);
                        }
                    }
                } else {
                    lemma_filter_agree(s, then, now);
                }
            }
        }
    }
}

impl View for World {
    type V = WorldView;

    open spec fn view(&self) -> WorldView {
        WorldView {
            names: Seq::new(self.id_to_name@.len(), |i: int| self.id_to_name@[i]@),
            alive: self.alive@,
            edges: Seq::new(self.colonies@.len(), |i: int| self.colonies@[i].outgoing@),
        }
    }
}

impl World {
    /// The number of colonies, dead ones included.
    pub open spec fn size(&self) -> nat {
        self.colonies@.len()
    }

    /// Colony `from` has an outgoing edge `(dir, to)`.
    pub open spec fn has_edge(&self, from: usize, dir: Direction, to: usize) -> bool {
        self.colonies@[from as int].outgoing@.contains((dir, to))
    }

    /// Colony `to` has a reverse link that names `from` and `dir`.
    pub open spec fn has_reverse_link(&self, to: usize, from: usize, dir: Direction) -> bool {
        self.reverse_links@[to as int]@.contains((dir, from))
    }

    /// The four arenas have one length.
    pub open spec fn arenas_aligned(&self) -> bool {
        &&& self.alive@.len() == self.colonies@.len()
        &&& self.id_to_name@.len() == self.colonies@.len()
        &&& self.reverse_links@.len() == self.colonies@.len()
    }

    /// The name index is the inverse of `id_to_name`.
    pub open spec fn names_indexed(&self) -> bool {
        &&& forall|i: int|
            #![trigger self.id_to_name@[i]]
            0 <= i < self.id_to_name@.len() ==> self.colony_name_to_id@.contains_key(
                self.id_to_name@[i]@,
            ) && self.colony_name_to_id@[self.id_to_name@[i]@] == i
        &&& forall|name: Seq<char>| #[trigger]
            self.colony_name_to_id@.contains_key(name) ==> self.colony_name_to_id@[name]
                < self.id_to_name@.len() && self.id_to_name@[self.colony_name_to_id@[name] as int]@
                == name
    }

    /// Every edge and every reverse link names a colony of this world.
    pub open spec fn links_in_range(&self) -> bool {
        &&& forall|c: int, k: int|
            0 <= c < self.colonies@.len() && 0 <= k < self.colonies@[c].outgoing@.len() ==> (
            #[trigger] self.colonies@[c].outgoing@[k]).1 < self.colonies@.len()
        &&& forall|t: int, k: int|
            0 <= t < self.reverse_links@.len() && 0 <= k < self.reverse_links@[t]@.len() ==> (
            #[trigger] self.reverse_links@[t]@[k]).1 < self.colonies@.len()
    }

    /// The reverse links mirror the edges: `(dir, t)` leaves `c` exactly if
    /// `t` has a reverse link for `c` and `dir`.
    pub open spec fn mirrored(&self) -> bool {
        forall|c: usize, dir: Direction, t: usize|
            #![trigger self.has_edge(c, dir, t)]
            #![trigger self.has_reverse_link(t, c, dir)]
            c < self.colonies@.len() && t < self.colonies@.len() ==> (self.has_edge(c, dir, t)
                <==> self.has_reverse_link(t, c, dir))
    }

    /// No list of reverse links holds an entry twice.
    pub open spec fn links_distinct(&self) -> bool {
        forall|t: int|
            0 <= t < self.reverse_links@.len() ==> (#[trigger] self.reverse_links@[t])@.no_duplicates()
    }

    /// The world is well formed.
    pub open spec fn wf(&self) -> bool {
        &&& self.arenas_aligned()
        &&& self.names_indexed()
        &&& self.links_in_range()
        &&& self.links_distinct()
        &&& self.mirrored()
    }

    /// A well-formed world has a valid view.
    pub proof fn lemma_view_valid(&self)
        requires
            self.wf(),
        ensures
            self@.valid(),
            self@.len() == self.size(),
    {
        let v = self@;
        assert(self.id_to_name@.len() == self.id_to_name.len());
        assert forall|i: int, j: int| 0 <= i < j < v.names.len() implies v.names[i]
            != v.names[j] by {
            assert(self.colony_name_to_id@[self.id_to_name@[i]@] == i);
            assert(self.colony_name_to_id@[self.id_to_name@[j]@] == j);
        }
        assert forall|c: int, k: int|
            0 <= c < v.edges.len() && 0 <= k < v.edges[c].len() implies (#[trigger] v.edges[c][k]).1
            < v.names.len() by {
            assert(self.colonies@[c].outgoing@[k].1 < self.colonies@.len());
        }
    }

    /// What `destroy_colony` leaves of a well-formed world `before` in
    /// which `y` was alive: `y` is dead and without edges or reverse links,
    /// and no other colony has an edge to `y` or a reverse link from it.
    spec fn cut_from(&self, before: World, y: usize) -> bool {
        &&& self.alive@ == before.alive@.update(y as int, false)
        &&& self.id_to_name == before.id_to_name
        &&& self.colony_name_to_id == before.colony_name_to_id
        &&& self.colonies@.len() == before.colonies@.len()
        &&& self.reverse_links@.len() == before.reverse_links@.len()
        &&& forall|c: int|
            0 <= c < self.colonies@.len() ==> #[trigger] self.colonies@[c].outgoing@ == if c == y {
                Seq::<Edge>::empty()
            } else {
                before.colonies@[c].outgoing@.filter(not_to(y))
            }
        &&& forall|t: int|
            0 <= t < self.reverse_links@.len() ==> #[trigger] self.reverse_links@[t]@ == if t
                == y {
                Seq::<Edge>::empty()
            } else {
                before.reverse_links@[t]@.filter(not_to(y))
            }
    }

    /// Cutting a live colony out of a well-formed world leaves a well-formed
    /// world, whose view is that of the world with the colony destroyed.
    proof fn lemma_cut_from(&self, before: World, y: usize)
        requires
            before.wf(),
            y < before.size(),
            before.alive@[y as int],
            self.cut_from(before, y),
        ensures
            self.wf(),
            self@ == before@.destroyed(y as int),
    {
        let n = self.colonies@.len();
        assert(self@.names =~~= before@.names);
        assert(self@.edges =~~= before@.destroyed(y as int).edges);
        assert forall|c: int, k: int|
            0 <= c < n && 0 <= k < self.colonies@[c].outgoing@.len() implies (
        #[trigger] self.colonies@[c].outgoing@[k]).1 < n by {
            let e = self.colonies@[c].outgoing@[k];
            assert(self.colonies@[c].outgoing@.contains(e));
            lemma_filter_contains(before.colonies@[c].outgoing@, not_to(y), e);
            let j = before.colonies@[c].outgoing@.index_of(e);
            assert(before.colonies@[c].outgoing@[j].1 < n);
        }
        assert forall|t: int, k: int|
            0 <= t < n && 0 <= k < self.reverse_links@[t]@.len() implies (
        #[trigger] self.reverse_links@[t]@[k]).1 < n by {
            let e = self.reverse_links@[t]@[k];
            assert(self.reverse_links@[t]@.contains(e));
            lemma_filter_contains(before.reverse_links@[t]@, not_to(y), e);
            let j = before.reverse_links@[t]@.index_of(e);
            assert(before.reverse_links@[t]@[j].1 < n);
        }
        assert forall|t: int| 0 <= t < n implies (#[trigger] self.reverse_links@[t])@.no_duplicates() by {
            if t != y {
                lemma_filter_no_duplicates(before.reverse_links@[t]@, not_to(y));
            }
        }
        assert forall|c: usize, dir: Direction, t: usize| c < n && t < n implies (self.has_edge(
            c,
            dir,
            t,
        ) <==> self.has_reverse_link(t, c, dir)) by {
            assert(before.has_edge(c, dir, t) <==> before.has_reverse_link(t, c, dir));
            lemma_filter_contains(before.colonies@[c as int].outgoing@, not_to(y), (dir, t));
            lemma_filter_contains(before.reverse_links@[t as int]@, not_to(y), (dir, c));
            assert(self.colonies@[c as int].outgoing@ == if c == y {
                Seq::<Edge>::empty()
            } else {
                before.colonies@[c as int].outgoing@.filter(not_to(y))
            });
            assert(self.reverse_links@[t as int]@ == if t == y {
                Seq::<Edge>::empty()
            } else {
                before.reverse_links@[t as int]@.filter(not_to(y))
            });
        }
    }

    /// The empty world.
    pub fn new() -> (world: World)
        ensures
            world.wf(),
            world@ == WorldView::empty(),
    {
        let world = World {
            colonies: Vec::new(),
            alive: Vec::new(),
            id_to_name: Vec::new(),
            colony_name_to_id: StringHashMap::new(),
            reverse_links: Vec::new(),
        };
        assert(world@ =~~= WorldView::empty());
        world
    }

    /// Looks `name` up and returns the id of the colony that bears it. A
    /// name that was not seen before gets a new colony: alive, without
    /// edges, under the next free id.
    pub fn get_or_add_colony(&mut self, name: String) -> (id: usize)
        requires
            old(self).wf(),
        ensures
            final(self).wf(),
            final(self)@ == old(self)@.interned(name@),
            id < final(self).size(),
            final(self)@.names[id as int] == name@,
            id == final(self)@.id_of(name@),
            !old(self)@.names.contains(name@) ==> id == old(self).size(),
    {
        proof {
            old(self).lemma_view_valid();
        }
        let found: Option<usize> = match self.colony_name_to_id.get(name.as_str()) {
            Some(id) => Some(*id),
            None => None,
        };
        let id: usize = match found {
            Some(id) => {
                proof {
                    assert(self@.names[id as int] == name@);
                    assert(self@.names.contains(name@));
                }
                id
            },
            None => {
                proof {
                    if self@.names.contains(name@) {
                        let i = self@.names.index_of(name@);
                        assert(self.id_to_name@[i]@ == name@);
                    }
                }
                let id: usize = self.colonies.len();
                self.colony_name_to_id.insert(name.clone(), id);
                self.id_to_name.push(name);
                self.colonies.push(ColonyData { outgoing: Vec::new() });
                self.alive.push(true);
                self.reverse_links.push(Vec::new());
                proof {
                    assert(final(self)@ =~~= old(self)@.with_colony(name@));
                    assert forall|i: int|
                        #![trigger self.id_to_name@[i]]
                        0 <= i < self.id_to_name@.len() implies self.colony_name_to_id@.contains_key(
                        self.id_to_name@[i]@,
                    ) && self.colony_name_to_id@[self.id_to_name@[i]@] == i by {
                        if i < id {
                            assert(self.id_to_name@[i] == old(self).id_to_name@[i]);
                        }
                    }
                    assert forall|c: usize, dir: Direction, t: usize|
                        c < self.colonies@.len() && t < self.colonies@.len() implies (
                    self.has_edge(c, dir, t) <==> self.has_reverse_link(t, c, dir)) by {
                        if c < id && t < id {
                            assert(old(self).has_edge(c, dir, t) <==> old(self).has_reverse_link(
                                t,
                                c,
                                dir,
                            ));
                        }
                        if self.has_edge(c, dir, t) && c < id {
                            let k = old(self).colonies@[c as int].outgoing@.index_of((dir, t));
                            assert(old(self).colonies@[c as int].outgoing@[k].1 < id);
                        }
                        if self.has_reverse_link(t, c, dir) && t < id {
                            let k = old(self).reverse_links@[t as int]@.index_of((dir, c));
                            assert(old(self).reverse_links@[t as int]@[k].1 < id);
                        }
                    }
                }
                id
            },
        };
        proof {
            self.lemma_view_valid();
            assert(self@.names[id as int] == name@);
            assert(self@.names.contains(name@));
            assert(self@.names.index_of(name@) == id);
        }
        id
    }

    /// Adds the edge `(dir, to)` to colony `from`, and its reverse link to
    /// colony `to`. An edge that is there already is added once more; its
    /// reverse link is not.
    pub fn add_direction(&mut self, from: usize, dir: Direction, to: usize)
        requires
            old(self).wf(),
            from < old(self).size(),
            to < old(self).size(),
        ensures
            final(self).wf(),
            final(self)@ == old(self)@.with_edge(from as int, dir, to),
    {
        self.colonies[from].outgoing.push((dir, to));
        let known: bool = holds_edge(&self.reverse_links[to], dir, from);
        if !known {
            self.reverse_links[to].push((dir, from));
        }
        proof {
            assert(final(self)@ =~~= old(self)@.with_edge(from as int, dir, to));
            let links = old(self).reverse_links@[to as int]@;
            if !known {
                assert forall|i: int, j: int|
                    0 <= i < links.len() + 1 && 0 <= j < links.len() + 1 && i != j implies links.push(
                    (dir, from),
                )[i] != links.push((dir, from))[j] by {
                    if i < links.len() {
                        assert(links.contains(links[i]));
                    }
                    if j < links.len() {
                        assert(links.contains(links[j]));
                    }
                }
            }
            assert forall|c: usize, d: Direction, t: usize|
                c < self.colonies@.len() && t < self.colonies@.len() implies (self.has_edge(c, d, t)
                <==> self.has_reverse_link(t, c, d)) by {
                assert(old(self).has_edge(c, d, t) <==> old(self).has_reverse_link(t, c, d));
                if c == from {
                    lemma_push_contains(
                        old(self).colonies@[c as int].outgoing@,
                        (dir, to),
                        (d, t),
                    );
                }
                if t == to && !known {
                    lemma_push_contains(links, (dir, from), (d, c));
                }
            }
        }
    }

    /// Destroys colony `y`. A dead colony stays as it is. A live one is
    /// marked dead; every colony with an edge to it loses that edge, its own
    /// edges go, and so do the reverse links that stood for them.
    pub fn destroy_colony(&mut self, y: usize)
        requires
            old(self).wf(),
            y < old(self).size(),
        ensures
            final(self).wf(),
            final(self)@ == old(self)@.destroyed(y as int),
    {
        if !self.alive[y] {
            return ;
        }
        let ghost before = *old(self);
        let n: usize = self.colonies.len();
        self.alive[y] = false;
        let mut incoming: Vec<Edge> = Vec::new();
        std::mem::swap(&mut incoming, &mut self.reverse_links[y]);
        let mut k: usize = 0;
        proof {
            assert(incoming@.take(0) =~= Seq::empty());
            assert forall|c: int| 0 <= c < n implies #[trigger] self.colonies@[c].outgoing@
                == before.colonies@[c].outgoing@.filter(not_cut(incoming@.take(0), c as usize, y)) by {
                lemma_cut_start(before.colonies@[c].outgoing@, c as usize, y);
            }
        }
        while k < incoming.len()
            invariant
                k <= incoming.len(),
                before.wf(),
                y < n == before.colonies@.len(),
                incoming@ == before.reverse_links@[y as int]@,
                self.alive@ == before.alive@.update(y as int, false),
                self.id_to_name == before.id_to_name,
                self.colony_name_to_id == before.colony_name_to_id,
                self.colonies@.len() == n,
                self.reverse_links@.len() == n,
                self.reverse_links@[y as int]@ == Seq::<Edge>::empty(),
                forall|t: int|
                    0 <= t < n && t != y ==> #[trigger] self.reverse_links@[t]
                        == before.reverse_links@[t],
                forall|c: int|
                    0 <= c < n ==> #[trigger] self.colonies@[c].outgoing@
                        == before.colonies@[c].outgoing@.filter(
                        not_cut(incoming@.take(k as int), c as usize, y),
                    ),
            decreases incoming.len() - k,
        {
            let e: Edge = incoming[k];
            let x: usize = e.1;
            let ghost done = incoming@.take(k as int);
            let ghost held = *self;
            assert(before.reverse_links@[y as int]@[k as int].1 < n);
            remove_edge(&mut self.colonies[x].outgoing, e.0, y);
            proof {
                assert(incoming@.take(k + 1) =~= done.push(e));
                assert forall|c: int| 0 <= c < n implies #[trigger] self.colonies@[c].outgoing@
                    == before.colonies@[c].outgoing@.filter(
                    not_cut(incoming@.take(k + 1), c as usize, y),
                ) by {
                    lemma_cut_step(before.colonies@[c].outgoing@, done, e, c as usize, y);
                    assert(held.colonies@[c].outgoing@ == before.colonies@[c].outgoing@.filter(
                        not_cut(done, c as usize, y),
                    ));
                }
            }
            k += 1;
        }
        let mut drained: Vec<Edge> = Vec::new();
        std::mem::swap(&mut drained, &mut self.colonies[y].outgoing);
        let ghost mid = *self;
        k = 0;
        proof {
            assert(incoming@.take(incoming@.len() as int) =~= incoming@);
            assert(drained@.take(0) =~= Seq::empty());
            assert forall|t: int| 0 <= t < n implies #[trigger] self.reverse_links@[t]@
                == mid.reverse_links@[t]@.filter(not_cut(drained@.take(0), t as usize, y)) by {
                lemma_cut_start(mid.reverse_links@[t]@, t as usize, y);
            }
            assert forall|c: int| 0 <= c < n && c != y implies #[trigger] self.colonies@[c].outgoing@
                == before.colonies@[c].outgoing@.filter(not_to(y)) by {
                let s = before.colonies@[c].outgoing@;
                assert forall|a: Edge| s.contains(a) && a.1 == y implies incoming@.contains(
                    (a.0, c as usize),
                ) by {
                    assert(before.has_edge(c as usize, a.0, y));
                    assert(before.has_reverse_link(y, c as usize, a.0));
                }
                lemma_cut_done(s, incoming@, c as usize, y);
            }
        }
        while k < drained.len()
            invariant
                k <= drained.len(),
                before.wf(),
                y < n == before.colonies@.len(),
                drained@ == before.colonies@[y as int].outgoing@.filter(
                    not_cut(before.reverse_links@[y as int]@, y, y),
                ),
                self.alive@ == before.alive@.update(y as int, false),
                self.id_to_name == before.id_to_name,
                self.colony_name_to_id == before.colony_name_to_id,
                self.colonies@.len() == n,
                self.reverse_links@.len() == n,
                mid.reverse_links@.len() == n,
                mid.reverse_links@[y as int]@ == Seq::<Edge>::empty(),
                forall|t: int|
                    0 <= t < n && t != y ==> #[trigger] mid.reverse_links@[t]
                        == before.reverse_links@[t],
                self.colonies@[y as int].outgoing@ == Seq::<Edge>::empty(),
                forall|c: int|
                    0 <= c < n && c != y ==> #[trigger] self.colonies@[c].outgoing@
                        == before.colonies@[c].outgoing@.filter(not_to(y)),
                forall|t: int|
                    0 <= t < n ==> #[trigger] self.reverse_links@[t]@
                        == mid.reverse_links@[t]@.filter(
                        not_cut(drained@.take(k as int), t as usize, y),
                    ),
            decreases drained.len() - k,
        {
            let e: Edge = drained[k];
            let z: usize = e.1;
            let ghost done = drained@.take(k as int);
            let ghost held = *self;
            proof {
                assert(drained@.contains(e));
                lemma_filter_contains(
                    before.colonies@[y as int].outgoing@,
                    not_cut(before.reverse_links@[y as int]@, y, y),
                    e,
                );
                let j = before.colonies@[y as int].outgoing@.index_of(e);
                assert(before.colonies@[y as int].outgoing@[j].1 < n);
            }
            remove_edge(&mut self.reverse_links[z], e.0, y);
            proof {
                assert(drained@.take(k + 1) =~= done.push(e));
                assert forall|t: int| 0 <= t < n implies #[trigger] self.reverse_links@[t]@
                    == mid.reverse_links@[t]@.filter(
                    not_cut(drained@.take(k + 1), t as usize, y),
                ) by {
                    lemma_cut_step(mid.reverse_links@[t]@, done, e, t as usize, y);
                    assert(held.reverse_links@[t]@ == mid.reverse_links@[t]@.filter(
                        not_cut(done, t as usize, y),
                    ));
                }
            }
            k += 1;
        }
        proof {
            assert(drained@.take(drained@.len() as int) =~= drained@);
            assert forall|t: int| 0 <= t < n implies #[trigger] self.reverse_links@[t]@ == if t
                == y {
                Seq::<Edge>::empty()
            } else {
                before.reverse_links@[t]@.filter(not_to(y))
            } by {
                if t == y {
                    lemma_filter_empty(not_cut(drained@, t as usize, y));
                } else {
                    let s = before.reverse_links@[t]@;
                    assert forall|a: Edge| s.contains(a) && a.1 == y implies drained@.contains(
                        (a.0, t as usize),
                    ) by {
                        assert(before.has_reverse_link(t as usize, y, a.0));
                        assert(before.has_edge(y, a.0, t as usize));
                        lemma_filter_contains(
                            before.colonies@[y as int].outgoing@,
                            not_cut(before.reverse_links@[y as int]@, y, y),
                            (a.0, t as usize),
                        );
                    }
                    lemma_cut_done(s, drained@, t as usize, y);
                }
            }
            self.lemma_cut_from(before, y);
        }
    }
}

} // verus!
