//! The world builder: reads a world from map text.
//!
//! The text holds one colony per line: the colony's name, then, separated by
//! white space, any number of links of the form `direction=name`. A line
//! without a word is skipped. Colonies get their ids in the order in which
//! their names are first met.

use vstd::prelude::*;
use crate::text::{chars_of, string_of};
use crate::world::{Direction, World, WorldView};

verus! {

/// Why map text was refused.
#[derive(Debug, Clone, Copy, PartialEq, Eq, Structural)]
pub enum ParseError {
    /// A link has no `=`.
    MissingSeparator,
    /// What stands before the `=` of a link is not a direction.
    InvalidDirection,
}

/// What ends a run of characters: the end of a line, white space, or the
/// `=` of a link.
#[derive(Debug, Clone, Copy, PartialEq, Eq, Structural)]
pub enum Mark {
    Newline,
    Space,
    Separator,
}

/// `c` is white space: a character with the Unicode property `White_Space`.
pub open spec fn is_space(c: char) -> bool {
    let u = c as u32;
    ||| 0x09 <= u <= 0x0D
    ||| u == 0x20
    ||| u == 0x85
    ||| u == 0xA0
    ||| u == 0x1680
    ||| 0x2000 <= u <= 0x200A
    ||| u == 0x2028
    ||| u == 0x2029
    ||| u == 0x202F
    ||| u == 0x205F
    ||| u == 0x3000
}

/// `c` is a mark of the kind `mark`.
pub open spec fn is_mark(mark: Mark, c: char) -> bool {
    match mark {
        Mark::Newline => c == '\n',
        Mark::Space => is_space(c),
        Mark::Separator => c == '=',
    }
}

/// The number of characters of `s` that stand before its first mark; the
/// length of `s` if it holds no mark.
pub open spec fn run_len(s: Seq<char>, mark: Mark) -> nat
    decreases s.len(),
{
    if s.len() == 0 || is_mark(mark, s[0]) {
        0
    } else {
        1 + run_len(s.skip(1), mark)
    }
}

/// A run is no longer than the text, and not empty if the text starts with
/// something other than a mark.
pub proof fn lemma_run_len_bound(s: Seq<char>, mark: Mark)
    ensures
        run_len(s, mark) <= s.len(),
        s.len() > 0 && !is_mark(mark, s[0]) ==> run_len(s, mark) >= 1,
    decreases s.len(),
{
    if s.len() > 0 && !is_mark(mark, s[0]) {
        lemma_run_len_bound(s.skip(1), mark);
    }
}

/// A run holds no mark, and ends at a mark or at the end of the text.
pub proof fn lemma_run_len_facts(s: Seq<char>, mark: Mark)
    ensures
        run_len(s, mark) <= s.len(),
        forall|i: int| 0 <= i < run_len(s, mark) ==> !is_mark(mark, #[trigger] s[i]),
        run_len(s, mark) == s.len() || is_mark(mark, s[run_len(s, mark) as int]),
    decreases s.len(),
{
    if s.len() > 0 && !is_mark(mark, s[0]) {
        let rest = s.skip(1);
        lemma_run_len_facts(rest, mark);
        assert forall|i: int| 0 <= i < run_len(s, mark) implies !is_mark(mark, #[trigger] s[i]) by {
            if i > 0 {
                assert(rest[i - 1] == s[i]);
            }
        }
        if run_len(s, mark) < s.len() {
            assert(rest[run_len(rest, mark) as int] == s[run_len(s, mark) as int]);
        }
    }
}

/// The run ends at `n` if no mark stands before `n` and a mark, or the end
/// of the text, stands at `n`.
pub proof fn lemma_run_len(s: Seq<char>, mark: Mark, n: int)
    requires
        0 <= n <= s.len(),
        forall|i: int| 0 <= i < n ==> !is_mark(mark, #[trigger] s[i]),
        n == s.len() || is_mark(mark, s[n]),
    ensures
        run_len(s, mark) == n,
    decreases n,
{
    if n > 0 {
        let rest = s.skip(1);
        assert forall|i: int| 0 <= i < n - 1 implies !is_mark(mark, #[trigger] rest[i]) by {
            assert(rest[i] == s[i + 1]);
        }
        lemma_run_len(rest, mark, n - 1);
    }
}

/// The words of `s`: its longest runs of characters that are not white
/// space, in order.
pub open spec fn words(s: Seq<char>) -> Seq<Seq<char>>
    decreases s.len(),
{
    if s.len() == 0 {
        Seq::empty()
    } else if is_space(s[0]) {
        words(s.skip(1))
    } else {
        let n = run_len(s, Mark::Space) as int;
        proof {
            lemma_run_len_bound(s, Mark::Space);
        }
        seq![s.take(n)] + words(s.skip(n))
    }
}

/// The lines of `s`: what stands between its line feeds. Text that ends in
/// a line feed has no empty last line.
pub open spec fn lines(s: Seq<char>) -> Seq<Seq<char>>
    decreases s.len(),
{
    if s.len() == 0 {
        Seq::empty()
    } else {
        let n = run_len(s, Mark::Newline) as int;
        proof {
            lemma_run_len_bound(s, Mark::Newline);
        }
        if n == s.len() {
            seq![s]
        } else {
            seq![s.take(n)] + lines(s.skip(n + 1))
        }
    }
}

/// The direction that `word` names, if it names one.
pub open spec fn direction_of(word: Seq<char>) -> Option<Direction> {
    if word == Direction::North.label() {
        Some(Direction::North)
    } else if word == Direction::South.label() {
        Some(Direction::South)
    } else if word == Direction::East.label() {
        Some(Direction::East)
    } else if word == Direction::West.label() {
        Some(Direction::West)
    } else {
        None
    }
}

/// `world` with the link `token` added to colony `from`. The token is cut
/// at its first `=`: before it stands the direction, after it the name of
/// the colony that the edge leads to, which is made if it is new.
pub open spec fn with_link(world: WorldView, from: int, token: Seq<char>) -> Result<
    WorldView,
    ParseError,
> {
    let n = run_len(token, Mark::Separator) as int;
    if n == token.len() {
        Err(ParseError::MissingSeparator)
    } else {
        match direction_of(token.take(n)) {
            None => Err(ParseError::InvalidDirection),
            Some(dir) => {
                let target = token.skip(n + 1);
                let known = world.interned(target);
                Ok(known.with_edge(from, dir, known.id_of(target) as usize))
            },
        }
    }
}

/// `world` with the links `tokens` added to colony `from`, one after
/// another; the first link that is refused ends it.
pub open spec fn with_links(world: WorldView, from: int, tokens: Seq<Seq<char>>) -> Result<
    WorldView,
    ParseError,
>
    decreases tokens.len(),
{
    if tokens.len() == 0 {
        Ok(world)
    } else {
        match with_link(world, from, tokens[0]) {
            Err(e) => Err(e),
            Ok(next) => with_links(next, from, tokens.skip(1)),
        }
    }
}

/// `world` with one line of map text read: the first word names the
/// colony, which is made if it is new, and each further word is a link of
/// that colony. A line without words changes nothing.
pub open spec fn with_line(world: WorldView, line: Seq<char>) -> Result<WorldView, ParseError> {
    let tokens = words(line);
    if tokens.len() == 0 {
        Ok(world)
    } else {
        let known = world.interned(tokens[0]);
        with_links(known, known.id_of(tokens[0]), tokens.skip(1))
    }
}

/// `world` with the lines `text` read, one after another; the first line
/// that is refused ends it.
pub open spec fn with_lines(world: WorldView, text: Seq<Seq<char>>) -> Result<WorldView, ParseError>
    decreases text.len(),
{
    if text.len() == 0 {
        Ok(world)
    } else {
        match with_line(world, text[0]) {
            Err(e) => Err(e),
            Ok(next) => with_lines(next, text.skip(1)),
        }
    }
}

/// The world that map text describes, or why the text is refused.
pub open spec fn parsed(text: Seq<char>) -> Result<WorldView, ParseError> {
    with_lines(WorldView::empty(), lines(text))
}

/// Tells whether `c` is white space.
pub fn is_space_char(c: char) -> (space: bool)
    ensures
        space == is_space(c),
{
    let u: u32 = c as u32;
    (0x09 <= u && u <= 0x0D) || u == 0x20 || u == 0x85 || u == 0xA0 || u == 0x1680 || (0x2000 <= u
        && u <= 0x200A) || u == 0x2028 || u == 0x2029 || u == 0x202F || u == 0x205F || u == 0x3000
}

fn at_mark(mark: Mark, c: char) -> (hit: bool)
    ensures
        hit == is_mark(mark, c),
{
    match mark {
        Mark::Newline => c == '\n',
        Mark::Space => is_space_char(c),
        Mark::Separator => c == '=',
    }
}

/// The index of the first mark in `chars[from..to]`, or `to` if there is
/// none.
fn find_mark(chars: &Vec<char>, from: usize, to: usize, mark: Mark) -> (at: usize)
    requires
        from <= to <= chars@.len(),
    ensures
        from <= at <= to,
        at - from == run_len(chars@.subrange(from as int, to as int), mark),
{
    let mut i: usize = from;
    while i < to && !at_mark(mark, chars[i])
        invariant
            from <= i <= to <= chars@.len(),
            forall|j: int| from <= j < i ==> !is_mark(mark, #[trigger] chars@[j]),
        decreases to - i,
    {
        i += 1;
    }
    proof {
        let s = chars@.subrange(from as int, to as int);
        assert forall|j: int| 0 <= j < i - from implies !is_mark(mark, #[trigger] s[j]) by {
            assert(s[j] == chars@[from + j]);
        }
        lemma_run_len(s, mark, i - from);
    }
    i
}

/// The index of the first character of `chars[from..to]` that is not white
/// space, or `to` if there is none. The words from there on are the words
/// from `from` on.
fn skip_spaces(chars: &Vec<char>, from: usize, to: usize) -> (at: usize)
    requires
        from <= to <= chars@.len(),
    ensures
        from <= at <= to,
        words(chars@.subrange(from as int, to as int)) == words(
            chars@.subrange(at as int, to as int),
        ),
        at < to ==> !is_space(chars@[at as int]),
{
    let mut i: usize = from;
    while i < to && is_space_char(chars[i])
        invariant
            from <= i <= to <= chars@.len(),
            words(chars@.subrange(from as int, to as int)) == words(
                chars@.subrange(i as int, to as int),
            ),
        decreases to - i,
    {
        proof {
            let s = chars@.subrange(i as int, to as int);
            assert(s[0] == chars@[i as int]);
            assert(s.skip(1) =~= chars@.subrange(i + 1, to as int));
        }
        i += 1;
    }
    i
}

/// Tells whether `chars[from..to]` spells `word`.
fn spells(chars: &Vec<char>, from: usize, to: usize, word: &str) -> (same: bool)
    requires
        from <= to <= chars@.len(),
    ensures
        same == (chars@.subrange(from as int, to as int) == word@),
{
    let n: usize = word.unicode_len();
    let ghost s = chars@.subrange(from as int, to as int);
    if to - from != n {
        return false;
    }
    let mut i: usize = 0;
    while i < n
        invariant
            i <= n,
            n == word@.len(),
            n == to - from,
            from <= to <= chars@.len(),
            s == chars@.subrange(from as int, to as int),
            forall|j: int| 0 <= j < i ==> s[j] == word@[j],
        decreases n - i,
    {
        if chars[from + i] != word.get_char(i) {
            assert(s[i as int] != word@[i as int]);
            return false;
        }
        i += 1;
    }
    assert(s =~= word@);
    true
}

/// Reads a direction from `chars[from..to]`.
fn read_direction(chars: &Vec<char>, from: usize, to: usize) -> (dir: Option<Direction>)
    requires
        from <= to <= chars@.len(),
    ensures
        dir == direction_of(chars@.subrange(from as int, to as int)),
{
    if spells(chars, from, to, Direction::North.name()) {
        Some(Direction::North)
    } else if spells(chars, from, to, Direction::South.name()) {
        Some(Direction::South)
    } else if spells(chars, from, to, Direction::East.name()) {
        Some(Direction::East)
    } else if spells(chars, from, to, Direction::West.name()) {
        Some(Direction::West)
    } else {
        None
    }
}

/// Reads the link `chars[from..to]` and adds it to colony `colony`.
fn add_link(world: &mut World, colony: usize, chars: &Vec<char>, from: usize, to: usize) -> (result:
    Result<(), ParseError>)
    requires
        old(world).wf(),
        colony < old(world).size(),
        from <= to <= chars@.len(),
    ensures
        final(world).wf(),
        colony < final(world).size(),
        old(world)@.all_alive() ==> final(world)@.all_alive(),
        match result {
            Ok(_) => with_link(
                old(world)@,
                colony as int,
                chars@.subrange(from as int, to as int),
            ) == Ok::<WorldView, ParseError>(final(world)@),
            Err(e) => with_link(
                old(world)@,
                colony as int,
                chars@.subrange(from as int, to as int),
            ) == Err::<WorldView, ParseError>(e),
        },
{
    let ghost token = chars@.subrange(from as int, to as int);
    let cut: usize = find_mark(chars, from, to, Mark::Separator);
    if cut == to {
        return Err(ParseError::MissingSeparator);
    }
    proof {
        assert(token.take(cut - from) =~= chars@.subrange(from as int, cut as int));
        assert(token.skip(cut - from + 1) =~= chars@.subrange(cut + 1, to as int));
    }
    match read_direction(chars, from, cut) {
        None => Err(ParseError::InvalidDirection),
        Some(dir) => {
            let target = world.get_or_add_colony(string_of(chars, cut + 1, to));
            world.add_direction(colony, dir, target);
            Ok(())
        },
    }
}

/// Reads the line `chars[from..to]` into `world`.
fn add_line(world: &mut World, chars: &Vec<char>, from: usize, to: usize) -> (result: Result<
    (),
    ParseError,
>)
    requires
        old(world).wf(),
        from <= to <= chars@.len(),
    ensures
        final(world).wf(),
        old(world)@.all_alive() ==> final(world)@.all_alive(),
        match result {
            Ok(_) => with_line(old(world)@, chars@.subrange(from as int, to as int)) == Ok::<
                WorldView,
                ParseError,
            >(final(world)@),
            Err(e) => with_line(old(world)@, chars@.subrange(from as int, to as int)) == Err::<
                WorldView,
                ParseError,
            >(e),
        },
{
    let ghost line = chars@.subrange(from as int, to as int);
    let start: usize = skip_spaces(chars, from, to);
    if start == to {
        assert(chars@.subrange(to as int, to as int).len() == 0);
        return Ok(());
    }
    let end: usize = find_mark(chars, start, to, Mark::Space);
    proof {
        let s = chars@.subrange(start as int, to as int);
        assert(s[0] == chars@[start as int]);
        assert(s.take(end - start) =~= chars@.subrange(start as int, end as int));
        assert(s.skip(end - start) =~= chars@.subrange(end as int, to as int));
        let rest = words(chars@.subrange(end as int, to as int));
        assert(words(line) == seq![chars@.subrange(start as int, end as int)] + rest);
        assert(words(line).skip(1) =~= rest);
    }
    let colony = world.get_or_add_colony(string_of(chars, start, end));
    let mut at: usize = end;
    loop
        invariant
            world.wf(),
            colony < world.size(),
            old(world)@.all_alive() ==> world@.all_alive(),
            from <= at <= to <= chars@.len(),
            line == chars@.subrange(from as int, to as int),
            with_line(old(world)@, line) == with_links(
                world@,
                colony as int,
                words(chars@.subrange(at as int, to as int)),
            ),
        decreases to - at,
    {
        let start: usize = skip_spaces(chars, at, to);
        if start == to {
            assert(chars@.subrange(to as int, to as int).len() == 0);
            return Ok(());
        }
        let end: usize = find_mark(chars, start, to, Mark::Space);
        proof {
            let s = chars@.subrange(start as int, to as int);
            lemma_run_len_bound(s, Mark::Space);
            assert(s[0] == chars@[start as int]);
            assert(s.take(end - start) =~= chars@.subrange(start as int, end as int));
            assert(s.skip(end - start) =~= chars@.subrange(end as int, to as int));
            let rest = words(chars@.subrange(end as int, to as int));
            let tokens = seq![chars@.subrange(start as int, end as int)] + rest;
            assert(words(chars@.subrange(at as int, to as int)) == tokens);
            assert(tokens[0] == chars@.subrange(start as int, end as int));
            assert(tokens.skip(1) =~= rest);
        }
        match add_link(world, colony, chars, start, end) {
            Err(e) => {
                return Err(e);
            },
            Ok(_) => {},
        }
        at = end;
    }
}

/// Builds the world that the map text `text` describes. The text is refused
/// if a link has no `=` or names no direction. Every colony of the new world
/// is alive.
pub fn build_world(text: &str) -> (result: Result<World, ParseError>)
    ensures
        match result {
            Ok(world) => world.wf() && parsed(text@) == Ok::<WorldView, ParseError>(world@)
                && world@.all_alive(),
            Err(e) => parsed(text@) == Err::<WorldView, ParseError>(e),
        },
{
    let chars = chars_of(text);
    let len: usize = chars.len();
    let mut world = World::new();
    let mut at: usize = 0;
    proof {
        assert(chars@.subrange(0, len as int) =~= text@);
    }
    while at < len
        invariant
            world.wf(),
            world@.all_alive(),
            at <= len == chars@.len(),
            chars@ == text@,
            parsed(text@) == with_lines(world@, lines(chars@.subrange(at as int, len as int))),
        decreases len - at,
    {
        let end: usize = find_mark(&chars, at, len, Mark::Newline);
        let ghost s = chars@.subrange(at as int, len as int);
        let ghost line = chars@.subrange(at as int, end as int);
        let next: usize = if end == len {
            len
        } else {
            end + 1
        };
        proof {
            assert(s.take(end - at) =~= line);
            if end == len {
                assert(s =~= line);
                assert(chars@.subrange(len as int, len as int).len() == 0);
                assert(lines(s) == seq![line]);
                assert(lines(s).skip(1) =~= lines(chars@.subrange(next as int, len as int)));
            } else {
                assert(s.skip(end - at + 1) =~= chars@.subrange(next as int, len as int));
                let rest = lines(chars@.subrange(next as int, len as int));
                assert(lines(s) == seq![line] + rest);
                assert(lines(s).skip(1) =~= rest);
            }
            assert(lines(s)[0] == line);
        }
        match add_line(&mut world, &chars, at, end) {
            Err(e) => {
                return Err(e);
            },
            Ok(_) => {},
        }
        at = next;
    }
    assert(chars@.subrange(len as int, len as int).len() == 0);
    Ok(world)
}

} // verus!
