//! Writing a world of one colony and reading it back.

use vstd::prelude::*;
use crate::ant::Ant;
use crate::builder::{
    direction_of, is_mark, is_space, lemma_run_len, lemma_run_len_bound, lemma_run_len_facts,
    lines, parsed, run_len, with_line, with_lines, with_link, with_links, words, Mark, ParseError,
};
use crate::cleanup::{collided, crowded, DestructionView};
use crate::movement::{all_moved, indices, lemma_filtered_indices, occupancy};
use crate::render::{colony_line, edge_text, edges_text, rendered};
use crate::seq_lemmas::{lemma_filter_empty, lemma_filter_push};
use crate::simulation::{cleaned, is_alive, joined, ran, state_of, ticked, SimulationState};
use crate::world::{Direction, Edge, WorldView};

verus! {

/// `s` is a word: it is not empty and holds no white space.
pub open spec fn is_word(s: Seq<char>) -> bool {
    &&& s.len() > 0
    &&& forall|i: int| 0 <= i < s.len() ==> !is_space(#[trigger] s[i])
}

/// A link as map text: the direction, `=`, the name.
pub open spec fn link_text(dir: Direction, name: Seq<char>) -> Seq<char> {
    dir.label() + seq!['='] + name
}

/// The links of a colony called `name` whose edges all lead back to it.
pub open spec fn self_links(name: Seq<char>, edges: Seq<Edge>) -> Seq<Seq<char>> {
    Seq::new(edges.len(), |k: int| link_text(edges[k].0, name))
}

/// The world of one live colony called `name` with the edges `edges`.
pub open spec fn lone_colony(name: Seq<char>, edges: Seq<Edge>) -> WorldView {
    WorldView { names: seq![name], alive: seq![true], edges: seq![edges] }
}

/// The word for a direction is a word without `=`, and names that
/// direction and no other.
pub proof fn lemma_label(dir: Direction)
    ensures
        is_word(dir.label()),
        forall|i: int| 0 <= i < dir.label().len() ==> (#[trigger] dir.label()[i]) != '=',
        direction_of(dir.label()) == Some(dir),
{
    reveal_strlit("north");
    reveal_strlit("south");
    reveal_strlit("east");
    reveal_strlit("west");
    let north = Direction::North.label();
    let south = Direction::South.label();
    let east = Direction::East.label();
    let west = Direction::West.label();
    assert(north[0] == 'n' && south[0] == 's' && east[0] == 'e' && west[0] == 'w');
    assert(north.len() == 5 && south.len() == 5 && east.len() == 4 && west.len() == 4);
}

/// A run is not changed by what follows it, if that begins with a mark.
proof fn lemma_run_len_append(s: Seq<char>, tail: Seq<char>, mark: Mark)
    requires
        tail.len() == 0 || is_mark(mark, tail[0]),
    ensures
        run_len(s + tail, mark) == run_len(s, mark),
{
    let n = run_len(s, mark) as int;
    let whole = s + tail;
    lemma_run_len_facts(s, mark);
    assert forall|i: int| 0 <= i < n implies !is_mark(mark, #[trigger] whole[i]) by {
        assert(whole[i] == s[i]);
    }
    if n < s.len() {
        assert(whole[n] == s[n]);
    } else if tail.len() > 0 {
        assert(whole[n] == tail[0]);
    }
    lemma_run_len(whole, mark, n);
}

/// A word is its own single word.
proof fn lemma_words_single(word: Seq<char>)
    requires
        is_word(word),
    ensures
        words(word) == seq![word],
{
    lemma_run_len(word, Mark::Space, word.len() as int);
    assert(word.take(word.len() as int) =~= word);
    assert(word.skip(word.len() as int) =~= Seq::<char>::empty());
    assert(words(word.skip(word.len() as int)) =~= Seq::<Seq<char>>::empty());
    assert(seq![word] + Seq::<Seq<char>>::empty() =~= seq![word]);
}

/// Text followed by a blank and a word has the words of the text, and then
/// that word.
proof fn lemma_words_append(s: Seq<char>, word: Seq<char>)
    requires
        is_word(word),
    ensures
        words(s + seq![' '] + word) == words(s).push(word),
    decreases s.len(),
{
    let tail = seq![' '] + word;
    let whole = s + seq![' '] + word;
    assert(whole =~= s + tail);
    assert(is_space(' '));
    if s.len() == 0 {
        assert(whole[0] == ' ');
        assert(whole.skip(1) =~= word);
        lemma_words_single(word);
        assert(words(s) =~= Seq::<Seq<char>>::empty());
        assert(Seq::<Seq<char>>::empty().push(word) =~= seq![word]);
    } else if is_space(s[0]) {
        assert(whole[0] == s[0]);
        assert(whole.skip(1) =~= s.skip(1) + seq![' '] + word);
        lemma_words_append(s.skip(1), word);
    } else {
        let n = run_len(s, Mark::Space) as int;
        lemma_run_len_bound(s, Mark::Space);
        assert(tail[0] == ' ');
        lemma_run_len_append(s, tail, Mark::Space);
        assert(whole[0] == s[0]);
        assert(whole.take(n) =~= s.take(n));
        assert(whole.skip(n) =~= s.skip(n) + seq![' '] + word);
        lemma_words_append(s.skip(n), word);
        assert(seq![s.take(n)] + words(s.skip(n)).push(word) =~= (seq![s.take(n)] + words(
            s.skip(n),
        )).push(word));
    }
}

/// Adding one more link after a list of links is adding it to what the
/// list has made, unless the list was refused.
proof fn lemma_with_links_push(
    world: WorldView,
    from: int,
    tokens: Seq<Seq<char>>,
    token: Seq<char>,
)
    ensures
        with_links(world, from, tokens.push(token)) == match with_links(world, from, tokens) {
            Ok(next) => with_link(next, from, token),
            Err(e) => Err(e),
        },
    decreases tokens.len(),
{
    let all = tokens.push(token);
    if tokens.len() == 0 {
        assert(all[0] == token);
        assert(all.skip(1) =~= Seq::<Seq<char>>::empty());
        match with_link(world, from, token) {
            Ok(next) => {
                assert(with_links(next, from, all.skip(1)) == Ok::<WorldView, ParseError>(next));
            },
            Err(_) => {},
        }
    } else {
        assert(all[0] == tokens[0]);
        assert(all.skip(1) =~= tokens.skip(1).push(token));
        match with_link(world, from, tokens[0]) {
            Ok(next) => {
                lemma_with_links_push(next, from, tokens.skip(1), token);
            },
            Err(_) => {},
        }
    }
}

/// In a world of one colony, the link to that colony adds an edge from the
/// colony to itself.
proof fn lemma_self_link(name: Seq<char>, edges: Seq<Edge>, dir: Direction)
    ensures
        with_link(lone_colony(name, edges), 0, link_text(dir, name)) == Ok::<
            WorldView,
            ParseError,
        >(lone_colony(name, edges.push((dir, 0)))),
{
    let world = lone_colony(name, edges);
    let label = dir.label();
    let token = link_text(dir, name);
    let n = label.len() as int;
    lemma_label(dir);
    assert forall|i: int| 0 <= i < n implies !is_mark(Mark::Separator, #[trigger] token[i]) by {
        assert(token[i] == label[i]);
    }
    assert(token[n] == '=');
    lemma_run_len(token, Mark::Separator, n);
    assert(token.take(n) =~= label);
    assert(token.skip(n + 1) =~= name);
    assert(world.names[0] == name);
    assert(world.names.contains(name));
    assert(world.interned(name) == world);
    assert(world.id_of(name) == 0);
    assert(world.with_edge(0, dir, 0) =~~= lone_colony(name, edges.push((dir, 0))));
}

/// The links of a lone colony, read one after another, give the colony its
/// edges.
proof fn lemma_self_links(name: Seq<char>, edges: Seq<Edge>)
    requires
        forall|k: int| 0 <= k < edges.len() ==> (#[trigger] edges[k]).1 == 0,
    ensures
        with_links(lone_colony(name, Seq::empty()), 0, self_links(name, edges)) == Ok::<
            WorldView,
            ParseError,
        >(lone_colony(name, edges)),
    decreases edges.len(),
{
    if edges.len() == 0 {
        assert(self_links(name, edges) =~= Seq::<Seq<char>>::empty());
        assert(edges =~= Seq::<Edge>::empty());
    } else {
        let front = edges.drop_last();
        let last = edges.last();
        assert(edges[edges.len() - 1] == last);
        lemma_self_links(name, front);
        assert(self_links(name, edges) =~= self_links(name, front).push(link_text(last.0, name)));
        lemma_with_links_push(
            lone_colony(name, Seq::empty()),
            0,
            self_links(name, front),
            link_text(last.0, name),
        );
        lemma_self_link(name, front, last.0);
        assert(front.push((last.0, 0)) =~= edges);
    }
}

/// The line of a lone colony holds no line feed, and its words are the
/// colony's name and its links.
proof fn lemma_line_words(name: Seq<char>, edges: Seq<Edge>)
    requires
        is_word(name),
        forall|k: int| 0 <= k < edges.len() ==> (#[trigger] edges[k]).1 == 0,
    ensures
        words(name + edges_text(seq![name], edges)) == seq![name] + self_links(name, edges),
        forall|i: int|
            0 <= i < (name + edges_text(seq![name], edges)).len() ==> (#[trigger] (name
                + edges_text(seq![name], edges))[i]) != '\n',
    decreases edges.len(),
{
    let names = seq![name];
    let text = name + edges_text(names, edges);
    assert(is_space('\n'));
    if edges.len() == 0 {
        assert(text =~= name);
        lemma_words_single(name);
        assert(self_links(name, edges) =~= Seq::<Seq<char>>::empty());
        assert(seq![name] + self_links(name, edges) =~= seq![name]);
    } else {
        let front = edges.drop_last();
        let last = edges.last();
        assert(edges[edges.len() - 1] == last);
        lemma_line_words(name, front);
        let before = name + edges_text(names, front);
        let link = link_text(last.0, name);
        reveal_strlit(" ");
        reveal_strlit("=");
        lemma_label(last.0);
        assert(" "@ =~= seq![' ']);
        assert("="@ =~= seq!['=']);
        assert(edge_text(names, last) =~= seq![' '] + link);
        assert(text =~= before + seq![' '] + link);
        assert forall|i: int| 0 <= i < link.len() implies !is_space(#[trigger] link[i]) by {
            let n = last.0.label().len() as int;
            if i < n {
                assert(link[i] == last.0.label()[i]);
            } else if i == n {
                assert(link[i] == '=');
            } else {
                assert(link[i] == name[i - n - 1]);
            }
        }
        lemma_words_append(before, link);
        assert(self_links(name, edges) =~= self_links(name, front).push(link));
        assert((seq![name] + self_links(name, front)).push(link) =~= seq![name] + self_links(
            name,
            edges,
        ));
        assert forall|i: int| 0 <= i < text.len() implies (#[trigger] text[i]) != '\n' by {
            if i < before.len() {
                assert(text[i] == before[i]);
            } else if i == before.len() {
                assert(text[i] == ' ');
            } else {
                assert(text[i] == link[i - before.len() - 1]);
            }
        }
    }
}

/// A world of one live colony, whose name is a word, is rendered as one
/// line, and that line reads back as the same world.
pub proof fn lemma_round_trip(world: WorldView)
    requires
        world.valid(),
        world.len() == 1,
        world.alive[0],
        is_word(world.names[0]),
    ensures
        rendered(world) == seq![colony_line(world, 0)],
        parsed(colony_line(world, 0)) == Ok::<WorldView, ParseError>(world),
{
    let name = world.names[0];
    let edges = world.edges[0];
    let text = colony_line(world, 0);
    assert(world.names =~= seq![name]);
    assert(world.alive =~= seq![true]);
    assert(world.edges =~= seq![edges]);
    assert(world =~= lone_colony(name, edges));
    assert forall|k: int| 0 <= k < edges.len() implies (#[trigger] edges[k]).1 == 0 by {
        assert(world.edges[0][k].1 < world.names.len());
    }
    // Rendering.
    lemma_filter_empty(is_alive(world));
    assert(indices(0) =~= Seq::empty());
    assert(indices(1) =~= indices(0).push(0));
    lemma_filter_push(indices(0), 0, is_alive(world));
    let live = indices(1).filter(is_alive(world));
    assert(live =~= seq![0usize]);
    assert(rendered(world) =~= seq![text]);
    // Reading.
    lemma_line_words(name, edges);
    lemma_self_links(name, edges);
    assert(text.len() > 0);
    lemma_run_len(text, Mark::Newline, text.len() as int);
    assert(lines(text) == seq![text]);
    let tokens = words(text);
    assert(tokens[0] == name);
    assert(tokens.skip(1) =~= self_links(name, edges));
    let start = WorldView::empty();
    assert(!start.names.contains(name));
    let known = start.interned(name);
    assert(known =~~= lone_colony(name, Seq::empty()));
    assert(known.names[0] == name);
    assert(known.id_of(name) == 0);
    assert(with_line(start, text) == Ok::<WorldView, ParseError>(world));
    assert(seq![text].skip(1) =~= Seq::<Seq<char>>::empty());
    assert(with_lines(world, seq![text].skip(1)) == Ok::<WorldView, ParseError>(world));
}

/// A tick without ants changes nothing and records nothing.
pub proof fn lemma_tick_without_ants(
    world: WorldView,
    ants: Seq<Ant>,
    after: WorldView,
    events: Seq<DestructionView>,
)
    requires
        world.valid(),
        ticked(Seq::empty(), world, ants, after, events),
    ensures
        ants == Seq::<Ant>::empty(),
        after == world,
        events == Seq::<DestructionView>::empty(),
{
    let moved = choose|moved: Seq<Ant>| #[trigger]
        all_moved(Seq::empty(), moved, world) && cleaned(moved, world, ants, after, events);
    assert(moved =~= Seq::<Ant>::empty());
    let buckets = occupancy(moved, world.len());
    let gone = collided(buckets);
    lemma_filtered_indices(world.len(), crowded(buckets));
    if gone.len() > 0 {
        let c = gone[0];
        assert(gone.contains(c));
        lemma_filter_empty(crate::movement::stands_on(moved, c));
        assert(indices(0) =~= Seq::empty());
        assert(buckets[c as int].len() == 0);
    }
    assert(gone =~= Seq::<usize>::empty());
    assert(ants =~= Seq::<Ant>::empty());
    assert(events =~= Seq::<DestructionView>::empty());
}

/// A run without ants is over after its first tick, and leaves the world
/// as it found it.
pub proof fn lemma_run_without_ants(
    origin: WorldView,
    ticks: nat,
    ants: Seq<Ant>,
    world: WorldView,
    events: Seq<DestructionView>,
)
    requires
        origin.valid(),
        ran(Seq::empty(), origin, ticks, ants, world, events),
    ensures
        ticks <= 1,
        ants == Seq::<Ant>::empty(),
        world == origin,
        events == Seq::<DestructionView>::empty(),
    decreases ticks,
{
    if ticks > 0 {
        let (held, before, earlier, last) = choose|
            held: Seq<Ant>,
            before: WorldView,
            earlier: Seq<DestructionView>,
            last: Seq<DestructionView>,
        |
            #![trigger ticked(held, before, ants, world, last), joined(earlier, last)]
            ran(Seq::empty(), origin, (ticks - 1) as nat, held, before, earlier) && (ticks > 1
                ==> state_of(held) == SimulationState::Running) && ticked(
                held,
                before,
                ants,
                world,
                last,
            ) && events == joined(earlier, last);
        lemma_run_without_ants(origin, (ticks - 1) as nat, held, before, earlier);
        lemma_tick_without_ants(before, ants, world, last);
        assert(events =~= Seq::<DestructionView>::empty());
    }
}

/// The round trip of a world of one colony: read from its line, run without
/// ants, and rendered, it gives that line again.
pub proof fn lemma_lone_colony_run(
    world: WorldView,
    ticks: nat,
    ants: Seq<Ant>,
    after: WorldView,
    events: Seq<DestructionView>,
)
    requires
        world.valid(),
        world.len() == 1,
        world.alive[0],
        is_word(world.names[0]),
        ran(Seq::empty(), world, ticks, ants, after, events),
    ensures
        parsed(colony_line(world, 0)) == Ok::<WorldView, ParseError>(world),
        rendered(after) == seq![colony_line(world, 0)],
{
    lemma_round_trip(world);
    lemma_run_without_ants(world, ticks, ants, after, events);
}

} // verus!
