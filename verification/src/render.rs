//! The report: the final world as text, and the line that tells of a
//! destroyed colony.

use vstd::prelude::*;
use vstd::string::StringExecFns;
use crate::cleanup::{Destruction, DestructionView};
use crate::movement::indices;
use crate::seq_lemmas::{lemma_filter_empty, lemma_filter_push};
use crate::simulation::is_alive;
use crate::text::{decimal, push_decimal};
use crate::world::{Edge, World, WorldView};

verus! {

/// One edge as map text: a blank, the direction, `=`, the name of the colony
/// it leads to.
pub open spec fn edge_text(names: Seq<Seq<char>>, edge: Edge) -> Seq<char> {
    " "@ + edge.0.label() + "="@ + names[edge.1 as int]
}

/// A list of edges as map text, one after another.
pub open spec fn edges_text(names: Seq<Seq<char>>, edges: Seq<Edge>) -> Seq<char>
    decreases edges.len(),
{
    if edges.len() == 0 {
        Seq::empty()
    } else {
        edges_text(names, edges.drop_last()) + edge_text(names, edges.last())
    }
}

/// The line of colony `c`: its name, then its edges.
pub open spec fn colony_line(world: WorldView, c: usize) -> Seq<char> {
    world.names[c as int] + edges_text(world.names, world.edges[c as int])
}

/// The world as map text: one line for each live colony, in the order of
/// the ids. Dead colonies are left out.
pub open spec fn rendered(world: WorldView) -> Seq<Seq<char>> {
    let live = indices(world.len()).filter(is_alive(world));
    Seq::new(live.len(), |k: int| colony_line(world, live[k]))
}

/// What a list of lines holds, line by line.
pub open spec fn line_views(lines: Seq<String>) -> Seq<Seq<char>> {
    Seq::new(lines.len(), |k: int| lines[k]@)
}

/// The line that tells of a destroyed colony.
pub open spec fn destruction_text(event: DestructionView) -> Seq<char> {
    event.colony_name + " has been destroyed by ant "@ + decimal(event.first_ant as nat)
        + " and ant "@ + decimal(event.second_ant as nat) + "!"@
}

/// The line of colony `c`, as map text.
fn render_colony(world: &World, c: usize) -> (line: String)
    requires
        world.wf(),
        c < world.size(),
    ensures
        line@ == colony_line(world@, c),
{
    let mut line = world.id_to_name[c].clone();
    let outgoing = &world.colonies[c].outgoing;
    let n: usize = outgoing.len();
    let mut k: usize = 0;
    proof {
        assert(outgoing@.take(0) =~= Seq::empty());
        assert(line@ =~= world@.names[c as int] + edges_text(world@.names, outgoing@.take(0)));
    }
    while k < n
        invariant
            k <= n,
            n == outgoing@.len(),
            world.wf(),
            c < world.size(),
            outgoing@ == world@.edges[c as int],
            line@ == world@.names[c as int] + edges_text(world@.names, outgoing@.take(k as int)),
        decreases n - k,
    {
        let edge: Edge = outgoing[k];
        let ghost held = line@;
        assert(world.colonies@[c as int].outgoing@[k as int].1 < world.size());
        line.append(" ");
        line.append(edge.0.name());
        line.append("=");
        line.append(world.id_to_name[edge.1].as_str());
        proof {
            let done = outgoing@.take(k as int);
            let more = outgoing@.take(k + 1);
            assert(more.drop_last() =~= done);
            assert(more.last() == edge);
            assert(world@.names[edge.1 as int] == world.id_to_name@[edge.1 as int]@);
            assert(line@ =~= held + edge_text(world@.names, edge));
            assert(line@ =~= world@.names[c as int] + edges_text(world@.names, more));
        }
        k += 1;
    }
    assert(outgoing@.take(n as int) =~= outgoing@);
    line
}

/// Renders the world as map text: one line for each live colony, in the
/// order of the ids, with the colony's name and its edges.
pub fn render_world(world: &World) -> (lines: Vec<String>)
    requires
        world.wf(),
    ensures
        line_views(lines@) == rendered(world@),
{
    let n: usize = world.colonies.len();
    let mut lines: Vec<String> = Vec::new();
    let ghost mut live: Seq<usize> = Seq::empty();
    let mut c: usize = 0;
    proof {
        world.lemma_view_valid();
        lemma_filter_empty(is_alive(world@));
        assert(indices(0) =~= Seq::empty());
    }
    while c < n
        invariant
            c <= n,
            n == world.size(),
            n == world@.len(),
            world.wf(),
            live == indices(c as nat).filter(is_alive(world@)),
            lines@.len() == live.len(),
            forall|k: int| 0 <= k < lines@.len() ==> (#[trigger] lines@[k])@ == colony_line(world@, live[k]),
        decreases n - c,
    {
        proof {
            assert(indices((c + 1) as nat) =~= indices(c as nat).push(c));
            lemma_filter_push(indices(c as nat), c, is_alive(world@));
        }
        if world.alive[c] {
            let line = render_colony(world, c);
            lines.push(line);
            proof {
                live = live.push(c);
            }
        }
        c += 1;
    }
    assert(line_views(lines@) =~= rendered(world@));
    lines
}

impl Destruction {
    /// The line that tells of this destruction: the colony's name and the
    /// two ants.
    pub fn message(&self) -> (line: String)
        ensures
            line@ == destruction_text(self@),
    {
        let mut line = self.colony_name.clone();
        line.append(" has been destroyed by ant ");
        push_decimal(&mut line, self.first_ant);
        line.append(" and ant ");
        push_decimal(&mut line, self.second_ant);
        line.append("!");
        line
    }
}

} // verus!
