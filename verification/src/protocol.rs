//! Reading the game's lines of numbers.

use vstd::prelude::*;
use vstd::string::StrSliceExecFns;
use std::collections::HashMap;
use crate::data::{Dropoff, Factory, Point, Ship};
use crate::game::{Constants, Game, MAX_CARGO, MAX_CELL};
use crate::geometry::{square_even, MAX_SIDE};
use crate::gmap::GMap;
use crate::goals::has_point;

verus! {

/// A character that separates numbers: one that Unicode counts as white space.
pub open spec fn is_space(c: char) -> bool {
    let u = c as u32;
    ||| 0x09 <= u <= 0x0d
    ||| u == 0x20
    ||| u == 0x85
    ||| u == 0xa0
    ||| u == 0x1680
    ||| 0x2000 <= u <= 0x200a
    ||| u == 0x2028
    ||| u == 0x2029
    ||| u == 0x202f
    ||| u == 0x205f
    ||| u == 0x3000
}

/// The value of a decimal digit; nothing for any other character.
pub open spec fn digit(c: char) -> Option<nat> {
    let u = c as u32;
    if 0x30 <= u <= 0x39 {
        Some((u - 0x30) as nat)
    } else {
        None
    }
}

/// Where the white space that begins at `i` ends.
pub open spec fn skip_spaces(s: Seq<char>, i: int) -> int
    decreases s.len() - i,
{
    if 0 <= i < s.len() && is_space(s[i]) {
        skip_spaces(s, i + 1)
    } else {
        i
    }
}

/// Where the word that begins at `i` ends.
pub open spec fn token_end(s: Seq<char>, i: int) -> int
    decreases s.len() - i,
{
    if 0 <= i < s.len() && !is_space(s[i]) {
        token_end(s, i + 1)
    } else {
        i
    }
}

/// The number that the digits from `from` up to `to` write; nothing if
/// one of the characters is no digit.
pub open spec fn digits_value(s: Seq<char>, from: int, to: int) -> Option<nat>
    decreases to - from,
{
    if to <= from {
        Some(0)
    } else {
        match (digits_value(s, from, to - 1), digit(s[to - 1])) {
            (Some(v), Some(d)) => Some(v * 10 + d),
            _ => None,
        }
    }
}

/// The number that the word from `from` up to `to` writes: digits, at
/// least one, with or without a plus sign before them.
pub open spec fn token_value(s: Seq<char>, from: int, to: int) -> Option<nat> {
    let start = if from < to && s[from] == '+' { from + 1 } else { from };
    if start >= to {
        None
    } else {
        digits_value(s, start, to)
    }
}

/// The numbers that the text writes from `i` on: words separated by
/// white space, each of which writes a number that fits a machine word.
/// Nothing if one of the words does not.
pub open spec fn numbers_from(s: Seq<char>, i: int) -> Option<Seq<usize>>
    decreases s.len() - i,
{
    let a = skip_spaces(s, i);
    let b = token_end(s, a);
    if i <= a && a < b && b <= s.len() {
        match token_value(s, a, b) {
            None => None,
            Some(v) => if v > usize::MAX {
                None
            } else {
                match numbers_from(s, b) {
                    None => None,
                    Some(rest) => Some(seq![v as usize] + rest),
                }
            },
        }
    } else {
        Some(Seq::empty())
    }
}

/// The numbers that a line writes.
pub open spec fn line_numbers(s: Seq<char>) -> Option<Seq<usize>> {
    numbers_from(s, 0)
}

/// Skipping white space ends at the end of the line or before a character
/// that is none, and passes white space only.
proof fn lemma_skip_spaces(s: Seq<char>, i: int)
    requires
        0 <= i <= s.len(),
    ensures
        i <= skip_spaces(s, i) <= s.len(),
        skip_spaces(s, i) < s.len() ==> !is_space(s[skip_spaces(s, i)]),
        forall|j: int| i <= j < skip_spaces(s, i) ==> is_space(#[trigger] s[j]),
    decreases s.len() - i,
{
    if i < s.len() && is_space(s[i]) {
        lemma_skip_spaces(s, i + 1);
    }
}

/// A word ends at the end of the line or before white space, and holds
/// none.
proof fn lemma_token_end(s: Seq<char>, i: int)
    requires
        0 <= i <= s.len(),
    ensures
        i <= token_end(s, i) <= s.len(),
        token_end(s, i) < s.len() ==> is_space(s[token_end(s, i)]),
        forall|j: int| i <= j < token_end(s, i) ==> !is_space(#[trigger] s[j]),
        i < s.len() && !is_space(s[i]) ==> token_end(s, i) > i,
    decreases s.len() - i,
{
    if i < s.len() && !is_space(s[i]) {
        lemma_token_end(s, i + 1);
    }
}

/// The white space that begins at `i` ends at `j` if all is white space
/// between the two and `j` is not.
proof fn lemma_skip_to(s: Seq<char>, i: int, j: int)
    requires
        0 <= i <= j <= s.len(),
        forall|k: int| i <= k < j ==> is_space(#[trigger] s[k]),
        j < s.len() ==> !is_space(s[j]),
    ensures
        skip_spaces(s, i) == j,
    decreases j - i,
{
    if i < j {
        lemma_skip_to(s, i + 1, j);
    }
}

/// The word that begins at `i` ends at `j` if nothing is white space
/// between the two and `j` is.
proof fn lemma_token_to(s: Seq<char>, i: int, j: int)
    requires
        0 <= i <= j <= s.len(),
        forall|k: int| i <= k < j ==> !is_space(#[trigger] s[k]),
        j < s.len() ==> is_space(s[j]),
    ensures
        token_end(s, i) == j,
    decreases j - i,
{
    if i < j {
        lemma_token_to(s, i + 1, j);
    }
}

/// Once the digits read so far write nothing, or more than fits, the
/// whole word does.
proof fn lemma_digits_grow(s: Seq<char>, from: int, mid: int, to: int)
    requires
        from <= mid <= to,
    ensures
        digits_value(s, from, mid).is_none() ==> digits_value(s, from, to).is_none(),
        digits_value(s, from, mid).is_some() && digits_value(s, from, to).is_some()
            ==> digits_value(s, from, mid).unwrap() <= digits_value(s, from, to).unwrap(),
    decreases to - mid,
{
    if mid < to {
        lemma_digits_grow(s, from, mid, to - 1);
    }
}

/// The characters of a line, one by one.
fn chars_of(line: &str) -> (v: Vec<char>)
    ensures
        v@ == line@,
{
    let n = line.unicode_len();
    let mut v: Vec<char> = Vec::new();
    let mut i: usize = 0;
    while i < n
        invariant
            n == line@.len(),
            i <= n,
            v.len() == i,
            forall|j: int| 0 <= j < i ==> v[j] == line@[j],
        decreases n - i,
    {
        v.push(line.get_char(i));
        i += 1;
    }
    assert(v@ =~= line@);
    v
}

/// Whether `c` separates numbers.
fn separates(c: char) -> (r: bool)
    ensures
        r == is_space(c),
{
    let u = c as u32;
    (0x09 <= u && u <= 0x0d) || u == 0x20 || u == 0x85 || u == 0xa0 || u == 0x1680 || (0x2000
        <= u && u <= 0x200a) || u == 0x2028 || u == 0x2029 || u == 0x202f || u == 0x205f || u
        == 0x3000
}

/// The numbers written on a line of the game's protocol: decimal numbers
/// separated by white space. Nothing if a word of the line is not a number
/// that fits a machine word.
#[verifier::spinoff_prover]
pub fn parse_line_of_nums(line: &str) -> (r: Option<Vec<usize>>)
    ensures
        match (r, line_numbers(line@)) {
            (Some(v), Some(s)) => v@ == s,
            (None, None) => true,
            _ => false,
        },
{
    let text = chars_of(line);
    let n = text.len();
    let ghost s = text@;
    let ghost goal = line_numbers(s);
    let mut out: Vec<usize> = Vec::new();
    let mut i: usize = 0;
    loop
        invariant
            n == text.len(),
            s == text@,
            s == line@,
            goal == line_numbers(s),
            i <= n,
            match (goal, numbers_from(s, i as int)) {
                (Some(all), Some(rest)) => all == out@ + rest,
                (None, None) => true,
                _ => false,
            },
        decreases n - i,
    {
        let ghost from = i as int;
        while i < n && separates(text[i])
            invariant
                n == text.len(),
                s == text@,
                from <= i <= n,
                forall|k: int| from <= k < i ==> is_space(#[trigger] s[k]),
            decreases n - i,
        {
            i += 1;
        }
        proof {
            lemma_skip_to(s, from, i as int);
        }
        if i >= n {
            proof {
                assert(numbers_from(s, from) == Some(Seq::<usize>::empty()));
                assert(out@ + Seq::<usize>::empty() =~= out@);
            }
            return Some(out);
        }
        let a = i;
        if text[i] == '+' {
            i += 1;
        }
        let start = i;
        let mut value: usize = 0;
        let mut ok = true;
        while i < n && !separates(text[i])
            invariant
                n == text.len(),
                s == text@,
                a < n,
                !is_space(s[a as int]),
                a <= start <= i <= n,
                start == a || (start == a + 1 && s[a as int] == '+'),
                start == a + 1 ==> s[a as int] == '+',
                s[a as int] == '+' ==> start == a + 1,
                forall|k: int| a <= k < i ==> !is_space(#[trigger] s[k]),
                ok ==> digits_value(s, start as int, i as int) == Some(value as nat),
                !ok ==> (digits_value(s, start as int, i as int).is_none() || digits_value(
                    s,
                    start as int,
                    i as int,
                ).unwrap() > usize::MAX),
            decreases n - i,
        {
            let c = text[i];
            let u = c as u32;
            proof {
                lemma_digits_grow(s, start as int, i as int, i as int + 1);
            }
            if ok {
                if 0x30 <= u && u <= 0x39 {
                    let d = (u - 0x30) as usize;
                    if value <= (usize::MAX - d) / 10 {
                        value = value * 10 + d;
                    } else {
                        ok = false;
                    }
                } else {
                    ok = false;
                }
            }
            i += 1;
        }
        proof {
            lemma_token_to(s, a as int, i as int);
            assert(token_end(s, a as int) == i);
            assert(i > a) by {
                if start == a {
                    lemma_token_end(s, a as int);
                }
            }
        }
        if !ok || start == i {
            proof {
                assert(numbers_from(s, from).is_none());
            }
            return None;
        }
        let ghost before = out@;
        out.push(value);
        proof {
            let rest = numbers_from(s, i as int);
            assert(token_value(s, a as int, i as int) == Some(value as nat));
            match rest {
                Some(r) => {
                    assert(numbers_from(s, from) == Some(seq![value] + r));
                    assert(before + (seq![value] + r) =~= out@ + r);
                },
                None => {
                    assert(numbers_from(s, from).is_none());
                },
            }
        }
    }
}

/// A parsed document of the JSON kind.
#[verifier::external_type_specification]
#[verifier::external_body]
pub struct ExJsonValue(serde_json::Value);

/// The members of a JSON object whose value is a whole number that is not
/// negative and fits 64 bits, by their names. Empty for a document that is
/// no object.
pub uninterp spec fn json_unsigned(doc: serde_json::Value) -> Map<Seq<char>, u64>;

/// Looks up the member `key` of a document with `serde_json`'s index
/// operator and reads it with `Value::as_u64`. The index operator gives
/// null where the document is no object or has no such member, and
/// `as_u64` gives a value only for a whole number that is not negative.
#[verifier::external_body]
fn unsigned_member(doc: &serde_json::Value, key: &str) -> (r: Option<u64>)
    ensures
        r == (if json_unsigned(*doc).contains_key(key@) {
            Some(json_unsigned(*doc)[key@])
        } else {
            None
        }),
{
    doc[key].as_u64()
}

/// The member `key` of the document as a machine word, if the document
/// has it as a whole number that fits one.
pub open spec fn json_word(doc: serde_json::Value, key: Seq<char>) -> Option<usize> {
    if json_unsigned(doc).contains_key(key) && json_unsigned(doc)[key] <= usize::MAX {
        Some(json_unsigned(doc)[key] as usize)
    } else {
        None
    }
}

/// The member `key` of the document as a machine word.
fn word_member(doc: &serde_json::Value, key: &str) -> (r: Option<usize>)
    ensures
        r == json_word(*doc, key@),
{
    match unsigned_member(doc, key) {
        Some(v) => if v <= usize::MAX as u64 {
            Some(v as usize)
        } else {
            None
        },
        None => None,
    }
}

impl Constants {
    /// The rules of a match as the game's document of constants states
    /// them. Nothing if the document lacks one of the four that the planner
    /// needs, or states one that is no whole number or does not fit a
    /// machine word.
    #[verifier::spinoff_prover]
    pub fn from_json(doc: &serde_json::Value) -> (r: Option<Constants>)
        ensures
            r == (match (
                json_word(*doc, "MAX_TURNS"@),
                json_word(*doc, "NEW_ENTITY_ENERGY_COST"@),
                json_word(*doc, "DROPOFF_COST"@),
                json_word(*doc, "MAX_ENERGY"@),
            ) {
                (Some(max_turns), Some(ship_cost), Some(dropoff_cost), Some(max_halite)) => Some(
                    Constants { max_turns, ship_cost, dropoff_cost, max_halite },
                ),
                _ => None,
            }),
    {
        let max_turns = match word_member(doc, "MAX_TURNS") {
            Some(v) => v,
            None => {
                return None;
            },
        };
        let ship_cost = match word_member(doc, "NEW_ENTITY_ENERGY_COST") {
            Some(v) => v,
            None => {
                return None;
            },
        };
        let dropoff_cost = match word_member(doc, "DROPOFF_COST") {
            Some(v) => v,
            None => {
                return None;
            },
        };
        let max_halite = match word_member(doc, "MAX_ENERGY") {
            Some(v) => v,
            None => {
                return None;
            },
        };
        Some(Constants { max_turns, ship_cost, dropoff_cost, max_halite })
    }
}

/// What is wrong with lines that do not follow the game's protocol:
/// too few lines or numbers, a grid that is not square with an even side,
/// or a number out of its range.
#[derive(Debug, Copy, Clone, PartialEq, Eq, Structural)]
pub struct Malformed {}

/// The lines that open a match are well-formed: one line for every
/// player with its id and the cell of its shipyard, one with the sides of
/// the grid, and one for every row with what its cells hold. The grid is
/// square with an even side, as the rings of the planner need it, and the
/// rules of the match are within what its arithmetic holds.
pub open spec fn opening_ok(
    lines: Seq<Vec<usize>>,
    constants: Constants,
    num_players: usize,
    my_pid: usize,
) -> bool {
    &&& my_pid < num_players
    &&& constants.max_turns <= MAX_CELL
    &&& constants.ship_cost <= MAX_CELL
    &&& constants.dropoff_cost <= MAX_CELL
    &&& constants.max_halite <= MAX_CELL
    &&& lines.len() > num_players
    &&& lines[num_players as int].len() >= 2
    &&& square_even(lines[num_players as int][0] as int, lines[num_players as int][1] as int)
    &&& lines.len() == num_players + 1 + lines[num_players as int][1]
    &&& opening_players_ok(lines, num_players, my_pid)
    &&& opening_rows_ok(lines, num_players)
}

/// Every player's line names a player and a cell of the grid, and one of
/// them names the own player.
pub open spec fn opening_players_ok(lines: Seq<Vec<usize>>, num_players: usize, my_pid: usize) -> bool {
    &&& forall|i: int|
        0 <= i < num_players ==> {
            &&& (#[trigger] lines[i]).len() >= 3
            &&& lines[i][0] < num_players
            &&& lines[i][1] < lines[num_players as int][0]
            &&& lines[i][2] < lines[num_players as int][1]
        }
    &&& exists|i: int| 0 <= i < num_players && (#[trigger] lines[i])[0] == my_pid
}

/// Every row has one number for each column, and none above what a cell
/// may hold.
pub open spec fn opening_rows_ok(lines: Seq<Vec<usize>>, num_players: usize) -> bool {
    &&& forall|y: int|
        0 <= y < lines[num_players as int][1] ==> (#[trigger] lines[num_players + 1 + y]).len()
            == lines[num_players as int][0]
    &&& forall|y: int, x: int|
        0 <= y < lines[num_players as int][1] && 0 <= x < lines[num_players as int][0] ==> (
        #[trigger] lines[num_players + 1 + y][x]) <= MAX_CELL
}

/// The shipyards that the opening lines list for the player `pid`, up to
/// the `n`-th line, in their order.
pub open spec fn yards(lines: Seq<Vec<usize>>, pid: usize, n: int) -> Seq<Point>
    decreases n,
{
    if n <= 0 {
        Seq::empty()
    } else if lines[n - 1][0] == pid {
        yards(lines, pid, n - 1).push(Point { x: lines[n - 1][1] as isize, y: lines[n - 1][2] as isize })
    } else {
        yards(lines, pid, n - 1)
    }
}

/// The player, other than `me`, whose shipyard the opening lines up to
/// the `n`-th put on the cell `c`; of several, the one listed last.
pub open spec fn yard_owner(lines: Seq<Vec<usize>>, me: usize, n: int, c: Point) -> Option<usize>
    decreases n,
{
    if n <= 0 {
        None
    } else if lines[n - 1][0] != me && lines[n - 1][1] == c.x && lines[n - 1][2] == c.y {
        Some(lines[n - 1][0])
    } else {
        yard_owner(lines, me, n - 1, c)
    }
}

impl Game {
    /// The game as it stands before the first turn: the grid as the
    /// opening lines give it, the shipyards, no ships, and the tables of
    /// nearest deposit sites for the own shipyard.
    ///
    /// `lines` are the lines that follow the line with the number of players:
    /// one for every player, one with the sides of the grid, one for every row.
    /// Lines that do not follow the protocol are refused, and so is a grid
    /// that is not square with an even side.
    #[verifier::spinoff_prover]
    pub fn init(lines: &Vec<Vec<usize>>, constants: Constants, num_players: usize, my_pid: usize) -> (r:
        Result<Game, Malformed>)
        ensures
            r.is_ok() <==> opening_ok(lines@, constants, num_players, my_pid),
            match r {
                Ok(game) => {
                    &&& game.wf()
                    &&& game.turn_number == 0
                    &&& game.constants == constants
                    &&& game.num_players == num_players
                    &&& game.my_pid == my_pid
                    &&& game.width == lines[num_players as int][0]
                    &&& game.height == lines[num_players as int][1]
                    &&& game.ships@ == Map::<usize, Ship>::empty()
                    &&& game.dropoffs@ == Seq::<Dropoff>::empty()
                    &&& game.my_drop_pts@ == yards(lines@, my_pid, num_players as int)
                    &&& forall|i: int|
                        0 <= i < num_players ==> #[trigger] game.factories[i] == (Factory {
                            player: lines[i][0],
                            pos: Point { x: lines[i][1] as isize, y: lines[i][2] as isize },
                        })
                    &&& forall|p: Point|
                        game.contains(p) ==> #[trigger] game.halite(p) == lines[num_players + 1
                            + p.y][p.x as int]
                    &&& forall|pl: int| 0 <= pl < num_players ==> (#[trigger] game.roster(pl)).len() == 0
                    &&& forall|pl: int| 0 <= pl < num_players ==> (#[trigger] game.energy[pl]) == 0
                    &&& forall|c: Point|
                        game.contains(c) ==> #[trigger] game.enemy_drop_pts.at_pos(c) == yard_owner(
                            lines@,
                            my_pid,
                            num_players as int,
                            c,
                        )
                },
                Err(_) => true,
            },
    {
        if my_pid >= num_players || constants.max_turns > MAX_CELL || constants.ship_cost
            > MAX_CELL || constants.dropoff_cost > MAX_CELL || constants.max_halite > MAX_CELL {
            return Err(Malformed {  });
        }
        if lines.len() <= num_players {
            return Err(Malformed {  });
        }
        let dims = &lines[num_players];
        if dims.len() < 2 {
            return Err(Malformed {  });
        }
        let width = dims[0];
        let height = dims[1];
        if width == 0 || width > MAX_SIDE || width != height || width % 2 != 0 {
            return Err(Malformed {  });
        }
        if lines.len() - num_players - 1 != height {
            return Err(Malformed {  });
        }
        let mut factories: Vec<Factory> = Vec::new();
        let mut my_drop_pts: Vec<Point> = Vec::new();
        let mut enemy_drop_pts: GMap<Option<usize>> = GMap::filled(width, height, None);
        proof {
            assert forall|c: Point|
                crate::geometry::in_grid(width as int, height as int, c) implies (
            #[trigger] enemy_drop_pts.at_pos(c)).is_none() by {
                assert(enemy_drop_pts.at(c.x as int, c.y as int).is_none());
            }
        }
        let mut i: usize = 0;
        while i < num_players
            invariant
                i <= num_players,
                num_players < lines.len(),
                width == lines[num_players as int][0],
                height == lines[num_players as int][1],
                square_even(width as int, height as int),
                enemy_drop_pts.wf(width as int, height as int),
                forall|c: Point|
                    crate::geometry::in_grid(width as int, height as int, c)
                        ==> #[trigger] enemy_drop_pts.at_pos(c) == yard_owner(
                        lines@,
                        my_pid,
                        i as int,
                        c,
                    ),
                factories.len() == i,
                my_drop_pts@ == yards(lines@, my_pid, i as int),
                forall|j: int|
                    0 <= j < i ==> {
                        &&& (#[trigger] lines[j]).len() >= 3
                        &&& lines[j][0] < num_players
                        &&& lines[j][1] < width
                        &&& lines[j][2] < height
                    },
                forall|j: int|
                    0 <= j < i ==> #[trigger] factories[j] == (Factory {
                        player: lines[j][0],
                        pos: Point { x: lines[j][1] as isize, y: lines[j][2] as isize },
                    }),
                forall|j: int|
                    0 <= j < my_drop_pts.len() ==> 0 <= (#[trigger] my_drop_pts[j]).x < width && 0
                        <= my_drop_pts[j].y < height,
                my_drop_pts.len() > 0 <==> exists|j: int| 0 <= j < i && (#[trigger] lines[j])[0] == my_pid,
            decreases num_players - i,
        {
            let this_player = &lines[i];
            if this_player.len() < 3 || this_player[0] >= num_players || this_player[1] >= width
                || this_player[2] >= height {
                proof {
                    assert(!opening_ok(lines@, constants, num_players, my_pid)) by {
                        if opening_ok(lines@, constants, num_players, my_pid) {
                            assert(lines[i as int].len() >= 3);
                        }
                    }
                }
                return Err(Malformed {  });
            }
            let pos = Point { x: this_player[1] as isize, y: this_player[2] as isize };
            factories.push(Factory { player: this_player[0], pos });
            let ghost had = my_drop_pts@.len() > 0;
            let ghost noted_before = enemy_drop_pts;
            if this_player[0] == my_pid {
                my_drop_pts.push(pos);
            } else {
                enemy_drop_pts.set(pos, Some(this_player[0]));
            }
            proof {
                assert forall|c: Point|
                    crate::geometry::in_grid(
                        width as int,
                        height as int,
                        c,
                    ) implies #[trigger] enemy_drop_pts.at_pos(c) == yard_owner(
                    lines@,
                    my_pid,
                    i as int + 1,
                    c,
                ) by {
                    assert(noted_before.has(c));
                }
            }
            proof {
                assert(my_drop_pts.len() > 0 <==> exists|j: int|
                    0 <= j < i + 1 && (#[trigger] lines[j])[0] == my_pid) by {
                    if my_drop_pts.len() > 0 {
                        if lines[i as int][0] == my_pid {
                        } else {
                            let j = choose|j: int| 0 <= j < i && (#[trigger] lines[j])[0] == my_pid;
                            assert(lines[j][0] == my_pid);
                        }
                    }
                    if exists|j: int| 0 <= j < i + 1 && (#[trigger] lines[j])[0] == my_pid {
                        let j = choose|j: int| 0 <= j < i + 1 && (#[trigger] lines[j])[0] == my_pid;
                        if j < i {
                            assert(had);
                        }
                    }
                }
            }
            i += 1;
        }
        if my_drop_pts.len() == 0 {
            return Err(Malformed {  });
        }
        proof {
            let j = choose|j: int| 0 <= j < num_players && (#[trigger] lines[j])[0] == my_pid;
            assert(lines[j][0] == my_pid);
            assert(opening_players_ok(lines@, num_players, my_pid));
        }
        let mut h_map: Vec<Vec<usize>> = Vec::new();
        let mut y: usize = 0;
        while y < height
            invariant
                y <= height,
                num_players < lines.len(),
                opening_players_ok(lines@, num_players, my_pid),
                lines.len() == num_players + 1 + height,
                width == lines[num_players as int][0],
                height == lines[num_players as int][1],
                h_map.len() == y,
                forall|j: int| 0 <= j < y ==> (#[trigger] h_map[j]).len() == width,
                forall|j: int, x: int|
                    0 <= j < y && 0 <= x < width ==> (#[trigger] h_map[j][x]) == lines[num_players
                        + 1 + j][x] && h_map[j][x] <= MAX_CELL,
                forall|j: int| 0 <= j < y ==> (#[trigger] lines[num_players + 1 + j]).len() == width,
            decreases height - y,
        {
            let row = &lines[num_players + 1 + y];
            if row.len() != width {
                proof {
                    if opening_ok(lines@, constants, num_players, my_pid) {
                        assert(lines[num_players + 1 + y as int].len() == width);
                    }
                }
                return Err(Malformed {  });
            }
            let mut copy: Vec<usize> = Vec::new();
            let mut x: usize = 0;
            while x < width
                invariant
                    x <= width,
                    y < height,
                    num_players < lines.len(),
                    width == lines[num_players as int][0],
                    height == lines[num_players as int][1],
                    row.len() == width,
                    *row == lines[num_players + 1 + y as int],
                    copy.len() == x,
                    forall|k: int| 0 <= k < x ==> (#[trigger] copy[k]) == row[k] && copy[k] <= MAX_CELL,
                decreases width - x,
            {
                if row[x] > MAX_CELL {
                    proof {
                        if opening_ok(lines@, constants, num_players, my_pid) {
                            assert(lines[num_players + 1 + y as int][x as int] <= MAX_CELL);
                        }
                    }
                    return Err(Malformed {  });
                }
                copy.push(row[x]);
                x += 1;
            }
            h_map.push(copy);
            y += 1;
        }
        proof {
            assert(opening_rows_ok(lines@, num_players)) by {
                assert forall|j: int, x: int|
                    0 <= j < lines[num_players as int][1] && 0 <= x < lines[num_players as int][0] implies (
                #[trigger] lines[num_players + 1 + j][x]) <= MAX_CELL by {
                    assert(h_map[j][x] == lines[num_players + 1 + j][x]);
                }
            }
        }
        let mut ship_id_by_player: Vec<Vec<usize>> = Vec::new();
        let mut energy: Vec<usize> = Vec::new();
        let mut pl: usize = 0;
        while pl < num_players
            invariant
                pl <= num_players,
                opening_players_ok(lines@, num_players, my_pid),
                opening_rows_ok(lines@, num_players),
                ship_id_by_player.len() == pl,
                energy.len() == pl,
                forall|j: int| 0 <= j < pl ==> (#[trigger] ship_id_by_player[j]).len() == 0,
                forall|j: int| 0 <= j < pl ==> (#[trigger] energy[j]) == 0,
            decreases num_players - pl,
        {
            ship_id_by_player.push(Vec::new());
            energy.push(0);
            pl += 1;
        }
        let mut game = Game {
            turn_number: 0,
            max_turns: constants.max_turns,
            constants,
            num_players,
            my_pid,
            factories,
            width,
            height,
            halite_map: GMap { gmap: h_map },
            ships: HashMap::new(),
            ship_id_by_player,
            ship_map: GMap::filled(width, height, None),
            dropoffs: Vec::new(),
            energy,
            my_drop_pts,
            nearest_drop_pt_idx: GMap::filled(width, height, 0),
            nearest_drop_pt_dist: GMap::filled(width, height, 0),
            enemy_drop_pts,
        };
        proof {
            assert(crate::vmaps::bases_in_grid(game.w(), game.h(), game.my_drop_pts@));
        }
        game.update_dropoff_maps();
        proof {
            assert(game.map_ok()) by {
                assert forall|x: int, y: int|
                    0 <= x < game.w() && 0 <= y < game.h() implies #[trigger] game.halite_map.at(
                    x,
                    y,
                ) <= MAX_CELL by {
                    assert(game.halite_map.gmap[y][x] <= MAX_CELL);
                }
            }
            assert(game.ships_ok()) by {
                assert forall|p: Point| game.contains(p) implies (
                #[trigger] game.ship_map.at_pos(p)).is_none() by {
                    assert(game.ship_map.at(p.x as int, p.y as int).is_none());
                }
            }
            assert(game.roster_ok()) by {
                assert forall|k: int| 0 <= k < game.num_players implies (
                #[trigger] game.roster(k)).no_duplicates() by {
                    assert(game.ship_id_by_player[k].len() == 0);
                }
            }
            assert(game.players_ok());
            assert(opening_ok(lines@, constants, num_players, my_pid));
            assert forall|p: Point| game.contains(p) implies #[trigger] game.halite(p)
                == lines[num_players + 1 + p.y][p.x as int] by {
                assert(game.halite_map.gmap[p.y as int][p.x as int] == lines[num_players + 1
                    + p.y][p.x as int]);
            }
        }
        Ok(game)
    }
}

/// Where the section of the `p`-th player begins among the lines of a
/// turn: after the line with the turn's number and the sections of the
/// players before. A section is a line with the player's id, the number of
/// its ships, the number of its deposit sites and its reserve, then a line
/// for every ship, then a line for every site.
pub open spec fn section_start(lines: Seq<Vec<usize>>, p: int) -> int
    decreases p,
{
    if p <= 0 {
        1
    } else {
        let s = section_start(lines, p - 1);
        s + 1 + lines[s][1] + lines[s][2]
    }
}

/// The `k`-th ship of the `p`-th player as its line states it.
pub open spec fn ship_at(lines: Seq<Vec<usize>>, p: int, k: int) -> Ship {
    let l = lines[section_start(lines, p) + 1 + k];
    Ship {
        player: p as usize,
        ship_id: l[0],
        pos: Point { x: l[1] as isize, y: l[2] as isize },
        halite: l[3] as isize,
    }
}

/// The cell of the `k`-th deposit site of the `p`-th player.
pub open spec fn site_at(lines: Seq<Vec<usize>>, p: int, k: int) -> Point {
    let s = section_start(lines, p);
    let l = lines[s + 1 + lines[s][1] + k];
    Point { x: l[1] as isize, y: l[2] as isize }
}

/// The section of the `p`-th player is well-formed for a grid of the
/// given sides.
pub open spec fn section_ok(lines: Seq<Vec<usize>>, w: int, h: int, p: int) -> bool {
    let s = section_start(lines, p);
    &&& 1 <= s < lines.len()
    &&& lines[s].len() >= 4
    &&& lines[s][0] == p
    &&& lines[s][3] <= MAX_CELL
    &&& s + 1 + lines[s][1] + lines[s][2] <= lines.len()
    &&& forall|k: int|
        0 <= k < lines[s][1] ==> {
            &&& (#[trigger] lines[s + 1 + k]).len() >= 4
            &&& lines[s + 1 + k][1] < w
            &&& lines[s + 1 + k][2] < h
            &&& lines[s + 1 + k][3] <= MAX_CARGO
        }
    &&& forall|k: int|
        0 <= k < lines[s][2] ==> {
            &&& (#[trigger] lines[s + 1 + lines[s][1] + k]).len() >= 3
            &&& lines[s + 1 + lines[s][1] + k][1] < w
            &&& lines[s + 1 + lines[s][1] + k][2] < h
        }
}

/// A ship line of the first `p` sections, or of the first `k` ships of
/// the `p`-th.
pub open spec fn ship_before(lines: Seq<Vec<usize>>, p: int, k: int, q: int, j: int) -> bool {
    0 <= q && 0 <= j < lines[section_start(lines, q)][1] && (q < p || (q == p && j < k))
}

/// No two ships of the first `p` sections and the first `k` ships of the
/// `p`-th have one id or stand on one cell.
pub open spec fn ships_distinct(lines: Seq<Vec<usize>>, p: int, k: int) -> bool {
    forall|q1: int, j1: int, q2: int, j2: int|
        ship_before(lines, p, k, q1, j1) && ship_before(lines, p, k, q2, j2) && (q1 != q2 || j1
            != j2) ==> (#[trigger] ship_at(lines, q1, j1)).ship_id != (#[trigger] ship_at(
            lines,
            q2,
            j2,
        )).ship_id && ship_at(lines, q1, j1).pos != ship_at(lines, q2, j2).pos
}

/// The lines that end a turn's lines are well-formed: the number of
/// cells that changed, and for each its column, its row and what it holds.
pub open spec fn updates_ok(lines: Seq<Vec<usize>>, w: int, h: int, u: int) -> bool {
    &&& 1 <= u < lines.len()
    &&& lines[u].len() >= 1
    &&& lines.len() == u + 1 + lines[u][0]
    &&& forall|k: int|
        0 <= k < lines[u][0] ==> {
            &&& (#[trigger] lines[u + 1 + k]).len() >= 3
            &&& lines[u + 1 + k][0] < w
            &&& lines[u + 1 + k][1] < h
            &&& lines[u + 1 + k][2] <= MAX_CELL
        }
}

/// The lines of a turn are well-formed for the game.
pub open spec fn frame_ok(game: Game, lines: Seq<Vec<usize>>) -> bool {
    &&& lines.len() > 0
    &&& lines[0].len() >= 1
    &&& 1 <= lines[0][0] <= game.constants.max_turns + 1
    &&& forall|p: int|
        0 <= p < game.num_players ==> #[trigger] section_ok(lines, game.w(), game.h(), p)
    &&& ships_distinct(lines, game.num_players as int, 0)
    &&& updates_ok(lines, game.w(), game.h(), section_start(lines, game.num_players as int))
}

/// What the cell in column `x` of row `y` holds once the first `n` of the
/// changes listed from line `u + 1` on have been made to a cell that held `before`.
pub open spec fn updated(lines: Seq<Vec<usize>>, u: int, n: int, x: int, y: int, before: usize) -> usize
    decreases n,
{
    if n <= 0 {
        before
    } else if lines[u + n][0] == x && lines[u + n][1] == y {
        lines[u + n][2]
    } else {
        updated(lines, u, n - 1, x, y, before)
    }
}

/// How many lines of a turn are still to come, as far as the lines read
/// so far tell: one if the next line to come tells how many follow it, nothing
/// once the turn is complete or cannot be read on.
pub open spec fn frame_missing(lines: Seq<Vec<usize>>, num_players: int, p: int, s: int) -> int
    decreases num_players - p,
{
    if lines.len() <= s {
        s + 1 - lines.len()
    } else if p >= num_players {
        if lines[s].len() < 1 {
            0
        } else if lines.len() < s + 1 + lines[s][0] {
            s + 1 + lines[s][0] - lines.len()
        } else {
            0
        }
    } else if lines[s].len() < 3 {
        0
    } else if lines.len() < s + 1 + lines[s][1] + lines[s][2] {
        s + 1 + lines[s][1] + lines[s][2] - lines.len()
    } else {
        frame_missing(lines, num_players, p + 1, s + 1 + lines[s][1] + lines[s][2])
    }
}

/// How many more lines of a turn must be read before more can be said:
/// nothing once the lines are a whole turn, or once a line is too short to
/// tell how many follow.
pub fn lines_needed(lines: &Vec<Vec<usize>>, num_players: usize) -> (n: usize)
    ensures
        n == (if frame_missing(lines@, num_players as int, 0, 1) > usize::MAX {
            usize::MAX as int
        } else {
            frame_missing(lines@, num_players as int, 0, 1)
        }),
{
    let len = lines.len() as u128;
    let mut s: u128 = 1;
    let mut p: usize = 0;
    loop
        invariant
            len == lines.len(),
            p <= num_players,
            1 <= s <= len + 1,
            frame_missing(lines@, num_players as int, 0, 1) == frame_missing(
                lines@,
                num_players as int,
                p as int,
                s as int,
            ),
        decreases num_players - p,
    {
        if len <= s {
            let need = s + 1 - len;
            return need as usize;
        }
        let line = &lines[s as usize];
        if p >= num_players {
            if line.len() < 1 {
                return 0;
            }
            let end: u128 = s + 1 + (line[0] as u128);
            if len < end {
                let need = end - len;
                return if need > usize::MAX as u128 { usize::MAX } else { need as usize };
            }
            return 0;
        }
        if line.len() < 3 {
            return 0;
        }
        let next: u128 = s + 1 + (line[1] as u128) + (line[2] as u128);
        if len < next {
            let need = next - len;
            return if need > usize::MAX as u128 { usize::MAX } else { need as usize };
        }
        s = next;
        p += 1;
    }
}

/// The ships read so far are those of the first `p` sections and the
/// first `k` ships of the `p`-th, each as its line states it, and the table
/// of occupied cells agrees with them.
pub open spec fn ships_read(
    game: Game,
    lines: Seq<Vec<usize>>,
    p: int,
    k: int,
    ships: Map<usize, Ship>,
    ship_map: GMap<Option<usize>>,
) -> bool {
    &&& ship_map.wf(game.w(), game.h())
    &&& forall|q: int, j: int|
        ship_before(lines, p, k, q, j) ==> ships.contains_key(
            (#[trigger] ship_at(lines, q, j)).ship_id,
        ) && ships[ship_at(lines, q, j).ship_id] == ship_at(lines, q, j)
    &&& forall|id: usize| #[trigger]
        ships.contains_key(id) ==> exists|q: int, j: int|
            ship_before(lines, p, k, q, j) && (#[trigger] ship_at(lines, q, j)).ship_id == id
    &&& forall|id: usize| #[trigger]
        ships.contains_key(id) ==> game.ship_ok(id, ships[id]) && ship_map.at_pos(ships[id].pos)
            == Some(id)
    &&& forall|c: Point|
        game.contains(c) ==> match #[trigger] ship_map.at_pos(c) {
            Some(id) => ships.contains_key(id) && ships[id].pos == c,
            None => true,
        }
}

/// A turn's lines that are well-formed have their ships apart up to any
/// point of reading.
pub proof fn lemma_distinct_upto(lines: Seq<Vec<usize>>, n: int, p: int, k: int)
    requires
        ships_distinct(lines, n, 0),
        0 <= p < n,
        0 <= k <= lines[section_start(lines, p)][1],
    ensures
        ships_distinct(lines, p, k),
{
    assert forall|q1: int, j1: int, q2: int, j2: int|
        ship_before(lines, p, k, q1, j1) && ship_before(lines, p, k, q2, j2) && (q1 != q2 || j1
            != j2) implies (#[trigger] ship_at(lines, q1, j1)).ship_id != (#[trigger] ship_at(
        lines,
        q2,
        j2,
    )).ship_id && ship_at(lines, q1, j1).pos != ship_at(lines, q2, j2).pos by {
        assert(ship_before(lines, n, 0, q1, j1));
        assert(ship_before(lines, n, 0, q2, j2));
    }
}

impl Game {
    /// Reads the ships of the `p`-th player into the tables: every ship
    /// must be on the grid, carry no more than a cell may hold, and share
    /// neither its id nor its cell with a ship read before.
    #[verifier::spinoff_prover]
    fn read_ships(
        &self,
        lines: &Vec<Vec<usize>>,
        p: usize,
        s: usize,
        ships: &mut HashMap<usize, Ship>,
        ship_map: &mut GMap<Option<usize>>,
    ) -> (r: Result<Vec<usize>, Malformed>)
        requires
            self.dims_ok(),
            p < self.num_players,
            s == section_start(lines@, p as int),
            1 <= s < lines.len(),
            lines[s as int].len() >= 4,
            s + 1 + lines[s as int][1] + lines[s as int][2] <= lines.len(),
            ships_read(*self, lines@, p as int, 0, old(ships)@, *old(ship_map)),
            ships_distinct(lines@, p as int, 0),
        ensures
            match r {
                Ok(roster) => {
                    &&& ships_read(*self, lines@, p as int + 1, 0, final(ships)@, *final(ship_map))
                    &&& ships_distinct(lines@, p as int + 1, 0)
                    &&& roster.len() == lines[s as int][1]
                    &&& forall|k: int|
                        0 <= k < roster.len() ==> #[trigger] roster[k] == ship_at(
                            lines@,
                            p as int,
                            k,
                        ).ship_id
                    &&& forall|k: int|
                        0 <= k < lines[s as int][1] ==> {
                            &&& (#[trigger] lines[s + 1 + k]).len() >= 4
                            &&& lines[s + 1 + k][1] < self.w()
                            &&& lines[s + 1 + k][2] < self.h()
                            &&& lines[s + 1 + k][3] <= MAX_CARGO
                        }
                },
                Err(_) => !ships_distinct(lines@, p as int + 1, 0) || exists|k: int|
                    0 <= k < lines[s as int][1] && !{
                        &&& (#[trigger] lines[s + 1 + k]).len() >= 4
                        &&& lines[s + 1 + k][1] < self.w()
                        &&& lines[s + 1 + k][2] < self.h()
                        &&& lines[s + 1 + k][3] <= MAX_CARGO
                    },
            },
    {
        broadcast use vstd::std_specs::hash::group_hash_axioms;

        let num_ships = lines[s][1];
        let mut roster: Vec<usize> = Vec::new();
        let mut k: usize = 0;
        while k < num_ships
            invariant
                self.dims_ok(),
                p < self.num_players,
                s == section_start(lines@, p as int),
                1 <= s < lines.len(),
                lines[s as int].len() >= 4,
                num_ships == lines[s as int][1],
                s + 1 + num_ships + lines[s as int][2] <= lines.len(),
                k <= num_ships,
                ships_read(*self, lines@, p as int, k as int, ships@, *ship_map),
                ships_distinct(lines@, p as int, k as int),
                roster.len() == k,
                forall|j: int| 0 <= j < k ==> #[trigger] roster[j] == ship_at(lines@, p as int, j).ship_id,
                forall|j: int|
                    0 <= j < k ==> {
                        &&& (#[trigger] lines[s + 1 + j]).len() >= 4
                        &&& lines[s + 1 + j][1] < self.w()
                        &&& lines[s + 1 + j][2] < self.h()
                        &&& lines[s + 1 + j][3] <= MAX_CARGO
                    },
            decreases num_ships - k,
        {
            let ship_info = &lines[s + 1 + k];
            if ship_info.len() < 4 || ship_info[1] >= self.width || ship_info[2] >= self.height
                || ship_info[3] > MAX_CARGO {
                proof {
                    let bad = k as int;
                    assert(!{
                        &&& (#[trigger] lines[s + 1 + bad]).len() >= 4
                        &&& lines[s + 1 + bad][1] < self.w()
                        &&& lines[s + 1 + bad][2] < self.h()
                        &&& lines[s + 1 + bad][3] <= MAX_CARGO
                    });
                }
                return Err(Malformed {  });
            }
            let ship_id = ship_info[0];
            let pos = Point { x: ship_info[1] as isize, y: ship_info[2] as isize };
            let ship = Ship { player: p, ship_id, pos, halite: ship_info[3] as isize };
            assert(ship == ship_at(lines@, p as int, k as int));
            assert(ship_before(lines@, p as int + 1, 0, p as int, k as int));
            if ships.contains_key(&ship_id) {
                proof {
                    let (q, j) = choose|q: int, j: int|
                        ship_before(lines@, p as int, k as int, q, j) && (#[trigger] ship_at(
                            lines@,
                            q,
                            j,
                        )).ship_id == ship_id;
                    assert(ship_before(lines@, p as int + 1, 0, q, j));
                    assert(ship_at(lines@, q, j).ship_id == ship_at(lines@, p as int, k as int).ship_id);
                }
                return Err(Malformed {  });
            }
            match *ship_map.get(pos) {
                Some(other) => {
                    proof {
                        let (q, j) = choose|q: int, j: int|
                            ship_before(lines@, p as int, k as int, q, j) && (#[trigger] ship_at(
                                lines@,
                                q,
                                j,
                            )).ship_id == other;
                        assert(ship_before(lines@, p as int + 1, 0, q, j));
                        assert(ship_at(lines@, q, j).pos == ship_at(lines@, p as int, k as int).pos);
                    }
                    return Err(Malformed {  });
                },
                None => {},
            }
            let ghost ships0 = ships@;
            let ghost map0 = *ship_map;
            ships.insert(ship_id, ship);
            ship_map.set(pos, Some(ship_id));
            roster.push(ship_id);
            proof {
                assert forall|q: int, j: int|
                    ship_before(lines@, p as int, k as int + 1, q, j) implies ships@.contains_key(
                    (#[trigger] ship_at(lines@, q, j)).ship_id,
                ) && ships@[ship_at(lines@, q, j).ship_id] == ship_at(lines@, q, j) by {
                    if q == p && j == k {
                    } else {
                        assert(ship_before(lines@, p as int, k as int, q, j));
                        assert(ships0.contains_key(ship_at(lines@, q, j).ship_id));
                    }
                }
                assert forall|id: usize| #[trigger] ships@.contains_key(id) implies exists|
                    q: int,
                    j: int,
                |
                    ship_before(lines@, p as int, k as int + 1, q, j) && (#[trigger] ship_at(
                        lines@,
                        q,
                        j,
                    )).ship_id == id by {
                    if id == ship_id {
                        assert(ship_before(lines@, p as int, k as int + 1, p as int, k as int));
                        assert(ship_at(lines@, p as int, k as int).ship_id == id);
                    } else {
                        assert(ships0.contains_key(id));
                        let (q, j) = choose|q: int, j: int|
                            ship_before(lines@, p as int, k as int, q, j) && (#[trigger] ship_at(
                                lines@,
                                q,
                                j,
                            )).ship_id == id;
                        assert(ship_before(lines@, p as int, k as int + 1, q, j));
                    }
                }
                assert forall|id: usize| #[trigger] ships@.contains_key(id) implies self.ship_ok(
                    id,
                    ships@[id],
                ) && ship_map.at_pos(ships@[id].pos) == Some(id) by {
                    if id != ship_id {
                        assert(ships0.contains_key(id));
                        assert(map0.has(ships0[id].pos));
                        assert(map0.at_pos(ships0[id].pos) == Some(id));
                    }
                }
                assert forall|c: Point| self.contains(c) implies match #[trigger] ship_map.at_pos(c) {
                    Some(id) => ships@.contains_key(id) && ships@[id].pos == c,
                    None => true,
                } by {
                    assert(map0.has(c));
                    if c != pos {
                        match map0.at_pos(c) {
                            Some(id) => {
                                assert(ships0.contains_key(id));
                            },
                            None => {},
                        }
                    }
                }
                assert forall|q1: int, j1: int, q2: int, j2: int|
                    ship_before(lines@, p as int, k as int + 1, q1, j1) && ship_before(
                        lines@,
                        p as int,
                        k as int + 1,
                        q2,
                        j2,
                    ) && (q1 != q2 || j1 != j2) implies (#[trigger] ship_at(lines@, q1, j1)).ship_id != (
                #[trigger] ship_at(lines@, q2, j2)).ship_id && ship_at(lines@, q1, j1).pos
                    != ship_at(lines@, q2, j2).pos by {
                    let new1 = q1 == p && j1 == k;
                    let new2 = q2 == p && j2 == k;
                    if !new1 {
                        assert(ship_before(lines@, p as int, k as int, q1, j1));
                        assert(ships0.contains_key(ship_at(lines@, q1, j1).ship_id));
                        assert(map0.at_pos(ship_at(lines@, q1, j1).pos).is_some());
                    }
                    if !new2 {
                        assert(ship_before(lines@, p as int, k as int, q2, j2));
                        assert(ships0.contains_key(ship_at(lines@, q2, j2).ship_id));
                        assert(map0.at_pos(ship_at(lines@, q2, j2).pos).is_some());
                    }
                }
            }
            k += 1;
        }
        proof {
            assert forall|q: int, j: int|
                ship_before(lines@, p as int + 1, 0, q, j) <==> ship_before(
                    lines@,
                    p as int,
                    num_ships as int,
                    q,
                    j,
                ) by {}
            assert(ships_read(*self, lines@, p as int + 1, 0, ships@, *ship_map)) by {
                assert forall|id: usize| #[trigger] ships@.contains_key(id) implies exists|
                    q: int,
                    j: int,
                |
                    ship_before(lines@, p as int + 1, 0, q, j) && (#[trigger] ship_at(
                        lines@,
                        q,
                        j,
                    )).ship_id == id by {
                    let (q, j) = choose|q: int, j: int|
                        ship_before(lines@, p as int, num_ships as int, q, j) && (
                        #[trigger] ship_at(lines@, q, j)).ship_id == id;
                    assert(ship_before(lines@, p as int + 1, 0, q, j));
                }
            }
            assert(ships_distinct(lines@, p as int + 1, 0)) by {
                assert forall|q1: int, j1: int, q2: int, j2: int|
                    ship_before(lines@, p as int + 1, 0, q1, j1) && ship_before(
                        lines@,
                        p as int + 1,
                        0,
                        q2,
                        j2,
                    ) && (q1 != q2 || j1 != j2) implies (#[trigger] ship_at(lines@, q1, j1)).ship_id != (
                #[trigger] ship_at(lines@, q2, j2)).ship_id && ship_at(lines@, q1, j1).pos
                    != ship_at(lines@, q2, j2).pos by {
                    assert(ship_before(lines@, p as int, num_ships as int, q1, j1));
                    assert(ship_before(lines@, p as int, num_ships as int, q2, j2));
                }
            }
        }
        Ok(roster)
    }
}

/// The deposit sites listed in the sections of the first `p` players,
/// each with its owner, in their order.
pub open spec fn sites_upto(lines: Seq<Vec<usize>>, p: int) -> Seq<Dropoff>
    decreases p,
{
    if p <= 0 {
        Seq::empty()
    } else {
        sites_upto(lines, p - 1) + Seq::new(
            lines[section_start(lines, p - 1)][2] as nat,
            |k: int| Dropoff { player: (p - 1) as usize, pos: site_at(lines, p - 1, k) },
        )
    }
}

/// The deposit sites of players other than `me` among the given sites,
/// each as its cell and its owner, in their order.
pub open spec fn foreign(sites: Seq<Dropoff>, me: usize) -> Seq<(Point, usize)> {
    sites.filter(|d: Dropoff| d.player != me).map_values(|d: Dropoff| (d.pos, d.player))
}

/// The owner that the first `n` of the sites give the cell `c`: the owner
/// of the first of them that lies on it.
pub open spec fn first_claim(sites: Seq<(Point, usize)>, n: int, c: Point) -> Option<usize>
    decreases n,
{
    if n <= 0 {
        None
    } else {
        match first_claim(sites, n - 1, c) {
            Some(o) => Some(o),
            None => if sites[n - 1].0 == c {
                Some(sites[n - 1].1)
            } else {
                None
            },
        }
    }
}

/// The owner noted for a cell once the sites have been noted: the owner
/// noted before, or, where none was, the owner of the first site on the cell.
pub open spec fn noted(was: Option<usize>, sites: Seq<(Point, usize)>, c: Point) -> Option<usize> {
    match was {
        Some(o) => Some(o),
        None => first_claim(sites, sites.len() as int, c),
    }
}

/// The list of own deposit sites once the lines of the first `k` sites
/// of the player `me` have been read: the sites known before, and after them
/// every site read that the list did not hold yet, once, in the order of the
/// lines.
pub open spec fn sites_after(lines: Seq<Vec<usize>>, me: int, k: int, before: Seq<Point>) -> Seq<
    Point,
>
    decreases k,
{
    if k <= 0 {
        before
    } else {
        let had = sites_after(lines, me, k - 1, before);
        if had.contains(site_at(lines, me, k - 1)) {
            had
        } else {
            had.push(site_at(lines, me, k - 1))
        }
    }
}

/// Reading sites leaves the known sites where they were, and a site that
/// is added is none of the known sites and is added once: it differs from
/// every other entry of the list.
pub proof fn sites_join_once(lines: Seq<Vec<usize>>, me: int, k: int, before: Seq<Point>)
    ensures
        before.len() <= sites_after(lines, me, k, before).len(),
        sites_after(lines, me, k, before).subrange(0, before.len() as int) == before,
        forall|i: int, j: int|
            before.len() <= i < sites_after(lines, me, k, before).len() && 0 <= j < sites_after(
                lines,
                me,
                k,
                before,
            ).len() && i != j ==> sites_after(lines, me, k, before)[i] != sites_after(
                lines,
                me,
                k,
                before,
            )[j],
    decreases k,
{
    let sites = sites_after(lines, me, k, before);
    if k <= 0 {
        assert(sites.subrange(0, before.len() as int) =~= before);
    } else {
        sites_join_once(lines, me, k - 1, before);
        let had = sites_after(lines, me, k - 1, before);
        let c = site_at(lines, me, k - 1);
        assert(sites.subrange(0, before.len() as int) =~= had.subrange(0, before.len() as int));
        if !had.contains(c) {
            assert forall|i: int, j: int|
                before.len() <= i < sites.len() && 0 <= j < sites.len() && i != j implies sites[i]
                != sites[j] by {
                if i < had.len() && j < had.len() {
                    assert(had[i] != had[j]);
                } else if i < had.len() {
                    assert(had.contains(had[i]));
                } else {
                    assert(had.contains(had[j]));
                }
            }
        }
    }
}

/// What is known of the own deposit sites once the lines of the first
/// `k` sites of the own player have been read: the sites known before come
/// first, every site read is listed, every site listed that was not known
/// before has been read, and each was added once, when it was first read and
/// not known.
pub open spec fn sites_read(
    lines: Seq<Vec<usize>>,
    me: int,
    k: int,
    before: Seq<Point>,
    sites: Seq<Point>,
) -> bool {
    &&& sites == sites_after(lines, me, k, before)
    &&& before.len() <= sites.len()
    &&& sites.subrange(0, before.len() as int) == before
    &&& forall|j: int| 0 <= j < k ==> sites.contains(#[trigger] site_at(lines, me, j))
    &&& forall|i: int| before.len() <= i < sites.len() ==> site_listed(lines, me, k, #[trigger] sites[i])
}

/// One of the first `k` lines of the sites of the player `me` names the cell `c`.
pub open spec fn site_listed(lines: Seq<Vec<usize>>, me: int, k: int, c: Point) -> bool {
    exists|j: int| 0 <= j < k && #[trigger] site_at(lines, me, j) == c
}

impl Game {
    /// Reads the deposit sites of the `p`-th player: the own ones that are
    /// new join the list of own sites, those of others are noted.
    #[verifier::spinoff_prover]
    fn read_sites(
        &self,
        lines: &Vec<Vec<usize>>,
        p: usize,
        s: usize,
        dropoffs: &mut Vec<Dropoff>,
        my_sites: &mut Vec<Point>,
        enemy_sites: &mut Vec<(Point, usize)>,
        Ghost(before): Ghost<Seq<Point>>,
    ) -> (r: Result<(), Malformed>)
        requires
            self.dims_ok(),
            p < self.num_players,
            s == section_start(lines@, p as int),
            1 <= s < lines.len(),
            lines[s as int].len() >= 4,
            s + 1 + lines[s as int][1] + lines[s as int][2] <= lines.len(),
            forall|i: int| 0 <= i < old(my_sites).len() ==> self.contains(#[trigger] old(my_sites)[i]),
            forall|i: int|
                0 <= i < old(enemy_sites).len() ==> self.contains((#[trigger] old(enemy_sites)[i]).0),
            sites_read(
                lines@,
                self.my_pid as int,
                if p > self.my_pid { lines[section_start(lines@, self.my_pid as int)][2] as int } else { 0 },
                before,
                old(my_sites)@,
            ),
            old(dropoffs)@ == sites_upto(lines@, p as int),
            old(enemy_sites)@ == foreign(old(dropoffs)@, self.my_pid),
        ensures
            match r {
                Ok(_) => {
                    &&& final(dropoffs)@ == sites_upto(lines@, p as int + 1)
                    &&& final(enemy_sites)@ == foreign(final(dropoffs)@, self.my_pid)
                    &&& forall|k: int|
                        0 <= k < lines[s as int][2] ==> {
                            &&& (#[trigger] lines[s + 1 + lines[s as int][1] + k]).len() >= 3
                            &&& lines[s + 1 + lines[s as int][1] + k][1] < self.w()
                            &&& lines[s + 1 + lines[s as int][1] + k][2] < self.h()
                        }
                    &&& forall|i: int|
                        0 <= i < final(my_sites).len() ==> self.contains(#[trigger] final(my_sites)[i])
                    &&& forall|i: int|
                        0 <= i < final(enemy_sites).len() ==> self.contains(
                            (#[trigger] final(enemy_sites)[i]).0,
                        )
                    &&& sites_read(
                        lines@,
                        self.my_pid as int,
                        if p >= self.my_pid {
                            lines[section_start(lines@, self.my_pid as int)][2] as int
                        } else {
                            0
                        },
                        before,
                        final(my_sites)@,
                    )
                },
                Err(_) => exists|k: int|
                    0 <= k < lines[s as int][2] && !{
                        &&& (#[trigger] lines[s + 1 + lines[s as int][1] + k]).len() >= 3
                        &&& lines[s + 1 + lines[s as int][1] + k][1] < self.w()
                        &&& lines[s + 1 + lines[s as int][1] + k][2] < self.h()
                    },
            },
    {
        let num_ships = lines[s][1];
        let num_dropoffs = lines[s][2];
        let me = p == self.my_pid;
        let ghost listed = dropoffs@;
        let ghost mine_not = |d: Dropoff| d.player != self.my_pid;
        let ghost pair_of = |d: Dropoff| (d.pos, d.player);
        let mut k: usize = 0;
        proof {
            assert(listed + Seq::new(
                0,
                |j: int| Dropoff { player: p, pos: site_at(lines@, p as int, j) },
            ) =~= listed);
        }
        while k < num_dropoffs
            invariant
                self.dims_ok(),
                p < self.num_players,
                me == (p == self.my_pid),
                listed == sites_upto(lines@, p as int),
                mine_not == |d: Dropoff| d.player != self.my_pid,
                pair_of == |d: Dropoff| (d.pos, d.player),
                dropoffs@ == listed + Seq::new(
                    k as nat,
                    |j: int| Dropoff { player: p, pos: site_at(lines@, p as int, j) },
                ),
                enemy_sites@ == dropoffs@.filter(mine_not).map_values(pair_of),
                s == section_start(lines@, p as int),
                1 <= s < lines.len(),
                lines[s as int].len() >= 4,
                num_ships == lines[s as int][1],
                num_dropoffs == lines[s as int][2],
                s + 1 + num_ships + num_dropoffs <= lines.len(),
                k <= num_dropoffs,
                forall|i: int| 0 <= i < my_sites.len() ==> self.contains(#[trigger] my_sites[i]),
                forall|i: int| 0 <= i < enemy_sites.len() ==> self.contains((#[trigger] enemy_sites[i]).0),
                forall|j: int|
                    0 <= j < k ==> {
                        &&& (#[trigger] lines[s + 1 + num_ships + j]).len() >= 3
                        &&& lines[s + 1 + num_ships + j][1] < self.w()
                        &&& lines[s + 1 + num_ships + j][2] < self.h()
                    },
                sites_read(
                    lines@,
                    self.my_pid as int,
                    if p > self.my_pid {
                        lines[section_start(lines@, self.my_pid as int)][2] as int
                    } else if me {
                        k as int
                    } else {
                        0
                    },
                    before,
                    my_sites@,
                ),
            decreases num_dropoffs - k,
        {
            let dropoff_info = &lines[s + 1 + num_ships + k];
            if dropoff_info.len() < 3 || dropoff_info[1] >= self.width || dropoff_info[2]
                >= self.height {
                proof {
                    let bad = k as int;
                    assert(!{
                        &&& (#[trigger] lines[s + 1 + lines[s as int][1] + bad]).len() >= 3
                        &&& lines[s + 1 + lines[s as int][1] + bad][1] < self.w()
                        &&& lines[s + 1 + lines[s as int][1] + bad][2] < self.h()
                    });
                }
                return Err(Malformed {  });
            }
            let d_pos = Point { x: dropoff_info[1] as isize, y: dropoff_info[2] as isize };
            let ghost had_sites = dropoffs@;
            dropoffs.push(Dropoff { player: p, pos: d_pos });
            proof {
                assert(d_pos == site_at(lines@, p as int, k as int));
                assert(dropoffs@ =~= listed + Seq::new(
                    k as nat + 1,
                    |j: int| Dropoff { player: p, pos: site_at(lines@, p as int, j) },
                ));
                crate::lists::lemma_filter_push(had_sites, mine_not, Dropoff { player: p, pos: d_pos });
                if !me {
                    assert(had_sites.filter(mine_not).push(Dropoff { player: p, pos: d_pos }).map_values(
                        pair_of,
                    ) =~= had_sites.filter(mine_not).map_values(pair_of).push((d_pos, p)));
                }
            }
            if me {
                assert(d_pos == site_at(lines@, self.my_pid as int, k as int));
                let ghost had = my_sites@;
                if !has_point(my_sites, d_pos) {
                    my_sites.push(d_pos);
                    proof {
                        assert(my_sites@.subrange(0, before.len() as int) =~= had.subrange(
                            0,
                            before.len() as int,
                        ));
                        assert(my_sites@[had.len() as int] == d_pos);
                        assert forall|j: int| 0 <= j < k + 1 implies my_sites@.contains(
                            #[trigger] site_at(lines@, self.my_pid as int, j),
                        ) by {
                            if j < k {
                                let x = site_at(lines@, self.my_pid as int, j);
                                assert(had.contains(x));
                                let i = choose|i: int| 0 <= i < had.len() && had[i] == x;
                                assert(my_sites@[i] == x);
                            }
                        }
                        assert forall|i: int| before.len() <= i < my_sites.len() implies site_listed(
                            lines@,
                            self.my_pid as int,
                            k as int + 1,
                            #[trigger] my_sites@[i],
                        ) by {
                            if i < had.len() {
                                assert(site_listed(lines@, self.my_pid as int, k as int, had[i]));
                                let j = choose|j: int|
                                    0 <= j < k && #[trigger] site_at(lines@, self.my_pid as int, j)
                                        == had[i];
                                assert(site_at(lines@, self.my_pid as int, j) == my_sites@[i]);
                            } else {
                                assert(site_at(lines@, self.my_pid as int, k as int) == my_sites@[i]);
                            }
                        }
                    }
                } else {
                    proof {
                        assert forall|i: int| before.len() <= i < my_sites.len() implies site_listed(
                            lines@,
                            self.my_pid as int,
                            k as int + 1,
                            #[trigger] my_sites@[i],
                        ) by {
                            assert(site_listed(lines@, self.my_pid as int, k as int, my_sites@[i]));
                            let j = choose|j: int|
                                0 <= j < k && #[trigger] site_at(lines@, self.my_pid as int, j)
                                    == my_sites@[i];
                            assert(site_at(lines@, self.my_pid as int, j) == my_sites@[i]);
                        }
                    }
                }
            } else {
                enemy_sites.push((d_pos, p));
            }
            k += 1;
        }
        Ok(())
    }

    /// Whether the lines from the `u`-th on list the cells that changed.
    fn check_updates(&self, lines: &Vec<Vec<usize>>, u: usize) -> (ok: bool)
        requires
            self.dims_ok(),
            1 <= u <= lines.len(),
        ensures
            ok == updates_ok(lines@, self.w(), self.h(), u as int),
    {
        if u >= lines.len() || lines[u].len() < 1 {
            return false;
        }
        let count = lines[u][0];
        if (lines.len() - u - 1) != count {
            return false;
        }
        let mut k: usize = 0;
        while k < count
            invariant
                self.dims_ok(),
                1 <= u < lines.len(),
                lines[u as int].len() >= 1,
                count == lines[u as int][0],
                lines.len() == u + 1 + count,
                k <= count,
                forall|j: int|
                    0 <= j < k ==> {
                        &&& (#[trigger] lines[u + 1 + j]).len() >= 3
                        &&& lines[u + 1 + j][0] < self.w()
                        &&& lines[u + 1 + j][1] < self.h()
                        &&& lines[u + 1 + j][2] <= MAX_CELL
                    },
            decreases count - k,
        {
            let map_update = &lines[u + 1 + k];
            if map_update.len() < 3 || map_update[0] >= self.width || map_update[1] >= self.height
                || map_update[2] > MAX_CELL {
                proof {
                    if updates_ok(lines@, self.w(), self.h(), u as int) {
                        assert(lines[u + 1 + k as int].len() >= 3);
                    }
                }
                return false;
            }
            k += 1;
        }
        true
    }

    /// Makes the changes that the lines from the `u`-th on list.
    #[verifier::spinoff_prover]
    fn apply_updates(&mut self, lines: &Vec<Vec<usize>>, u: usize)
        requires
            old(self).map_ok(),
            updates_ok(lines@, old(self).w(), old(self).h(), u as int),
        ensures
            final(self).map_ok(),
            final(self).same_but_halite(*old(self)),
            forall|x: int, y: int|
                0 <= x < old(self).w() && 0 <= y < old(self).h() ==> #[trigger] final(self).halite_map.at(
                    x,
                    y,
                ) == updated(
                    lines@,
                    u as int,
                    lines[u as int][0] as int,
                    x,
                    y,
                    old(self).halite_map.at(x, y),
                ),
    {
        let count = lines[u][0];
        let mut k: usize = 0;
        while k < count
            invariant
                self.map_ok(),
                self.same_but_halite(*old(self)),
                updates_ok(lines@, self.w(), self.h(), u as int),
                1 <= u < lines.len(),
                lines.len() == u + 1 + count,
                count == lines[u as int][0],
                k <= count,
                forall|x: int, y: int|
                    0 <= x < self.w() && 0 <= y < self.h() ==> #[trigger] self.halite_map.at(x, y)
                        == updated(lines@, u as int, k as int, x, y, old(self).halite_map.at(x, y)),
            decreases count - k,
        {
            let map_update = &lines[u + 1 + k];
            assert(lines[u + 1 + k as int].len() >= 3);
            let x = map_update[0];
            let y = map_update[1];
            let ghost before = self.halite_map;
            self.halite_map.set(Point { x: x as isize, y: y as isize }, map_update[2]);
            proof {
                assert forall|cx: int, cy: int|
                    0 <= cx < self.w() && 0 <= cy < self.h() implies #[trigger] self.halite_map.at(
                    cx,
                    cy,
                ) == updated(
                    lines@,
                    u as int,
                    k as int + 1,
                    cx,
                    cy,
                    old(self).halite_map.at(cx, cy),
                ) && self.halite_map.at(cx, cy) <= MAX_CELL by {
                    let c = Point { x: cx as isize, y: cy as isize };
                    assert(before.has(c));
                    assert(self.halite_map.at_pos(c) == self.halite_map.at(cx, cy));
                    assert(before.at_pos(c) == before.at(cx, cy));
                }
            }
            k += 1;
        }
    }

    /// `self` differs from `other` in what the cells hold at most.
    pub open spec fn same_but_halite(&self, other: Game) -> bool {
        &&& self.turn_number == other.turn_number
        &&& self.max_turns == other.max_turns
        &&& self.constants == other.constants
        &&& self.num_players == other.num_players
        &&& self.my_pid == other.my_pid
        &&& self.factories == other.factories
        &&& self.width == other.width
        &&& self.height == other.height
        &&& self.ships == other.ships
        &&& self.ship_id_by_player == other.ship_id_by_player
        &&& self.ship_map == other.ship_map
        &&& self.dropoffs == other.dropoffs
        &&& self.energy == other.energy
        &&& self.my_drop_pts == other.my_drop_pts
        &&& self.nearest_drop_pt_idx == other.nearest_drop_pt_idx
        &&& self.nearest_drop_pt_dist == other.nearest_drop_pt_dist
        &&& self.enemy_drop_pts == other.enemy_drop_pts
    }
}

/// What a turn's lines make of a game: the turn's number, the ships and
/// the rosters as the lines state them, the reserves, the own deposit sites
/// with the new ones added, and the cells that changed. The grid's sides,
/// the players, the shipyards and the rules stay.
pub open spec fn frame_read(before: Game, after: Game, lines: Seq<Vec<usize>>) -> bool {
    let n = before.num_players as int;
    &&& after.turn_number == lines[0][0] - 1
    &&& after.max_turns == before.max_turns
    &&& after.constants == before.constants
    &&& after.num_players == before.num_players
    &&& after.my_pid == before.my_pid
    &&& after.factories == before.factories
    &&& after.width == before.width
    &&& after.height == before.height
    &&& ships_read(before, lines, n, 0, after.ships@, after.ship_map)
    &&& forall|p: int|
        0 <= p < n ==> (#[trigger] after.roster(p)).len() == lines[section_start(lines, p)][1]
            && after.energy[p] == lines[section_start(lines, p)][3]
    &&& forall|p: int, k: int|
        0 <= p < n && 0 <= k < after.roster(p).len() ==> after.roster(p)[k] == (#[trigger] ship_at(
            lines,
            p,
            k,
        )).ship_id
    &&& sites_read(
        lines,
        before.my_pid as int,
        lines[section_start(lines, before.my_pid as int)][2] as int,
        before.my_drop_pts@,
        after.my_drop_pts@,
    )
    &&& after.dropoffs@ == sites_upto(lines, n)
    &&& forall|c: Point|
        before.contains(c) ==> #[trigger] after.enemy_drop_pts.at_pos(c) == noted(
            before.enemy_drop_pts.at_pos(c),
            foreign(sites_upto(lines, n), before.my_pid),
            c,
        )
    &&& forall|x: int, y: int|
        0 <= x < before.w() && 0 <= y < before.h() ==> #[trigger] after.halite_map.at(x, y)
            == updated(
            lines,
            section_start(lines, n),
            lines[section_start(lines, n)][0] as int,
            x,
            y,
            before.halite_map.at(x, y),
        )
}

impl Game {
    /// Notes the deposit sites of other players on the cells that have none yet.
    fn note_enemy_sites(&mut self, sites: &Vec<(Point, usize)>)
        requires
            old(self).dims_ok(),
            old(self).enemy_drop_pts.wf(old(self).w(), old(self).h()),
            forall|i: int| 0 <= i < sites.len() ==> old(self).contains((#[trigger] sites[i]).0),
        ensures
            final(self).enemy_drop_pts.wf(old(self).w(), old(self).h()),
            forall|c: Point|
                old(self).contains(c) ==> #[trigger] final(self).enemy_drop_pts.at_pos(c) == noted(
                    old(self).enemy_drop_pts.at_pos(c),
                    sites@,
                    c,
                ),
            final(self).turn_number == old(self).turn_number,
            final(self).max_turns == old(self).max_turns,
            final(self).constants == old(self).constants,
            final(self).num_players == old(self).num_players,
            final(self).my_pid == old(self).my_pid,
            final(self).factories == old(self).factories,
            final(self).width == old(self).width,
            final(self).height == old(self).height,
            final(self).halite_map == old(self).halite_map,
            final(self).ships == old(self).ships,
            final(self).ship_id_by_player == old(self).ship_id_by_player,
            final(self).ship_map == old(self).ship_map,
            final(self).dropoffs == old(self).dropoffs,
            final(self).energy == old(self).energy,
            final(self).my_drop_pts == old(self).my_drop_pts,
            final(self).nearest_drop_pt_idx == old(self).nearest_drop_pt_idx,
            final(self).nearest_drop_pt_dist == old(self).nearest_drop_pt_dist,
    {
        let mut i: usize = 0;
        while i < sites.len()
            invariant
                i <= sites.len(),
                self.dims_ok(),
                self.enemy_drop_pts.wf(self.w(), self.h()),
                forall|j: int| 0 <= j < sites.len() ==> self.contains((#[trigger] sites[j]).0),
                forall|c: Point|
                    self.contains(c) ==> #[trigger] self.enemy_drop_pts.at_pos(c) == (match old(
                        self,
                    ).enemy_drop_pts.at_pos(c) {
                        Some(o) => Some(o),
                        None => first_claim(sites@, i as int, c),
                    }),
                self.turn_number == old(self).turn_number,
                self.max_turns == old(self).max_turns,
                self.constants == old(self).constants,
                self.num_players == old(self).num_players,
                self.my_pid == old(self).my_pid,
                self.factories == old(self).factories,
                self.width == old(self).width,
                self.height == old(self).height,
                self.halite_map == old(self).halite_map,
                self.ships == old(self).ships,
                self.ship_id_by_player == old(self).ship_id_by_player,
                self.ship_map == old(self).ship_map,
                self.dropoffs == old(self).dropoffs,
                self.energy == old(self).energy,
                self.my_drop_pts == old(self).my_drop_pts,
                self.nearest_drop_pt_idx == old(self).nearest_drop_pt_idx,
                self.nearest_drop_pt_dist == old(self).nearest_drop_pt_dist,
            decreases sites.len() - i,
        {
            let (pos, player) = sites[i];
            assert(self.contains(sites[i as int].0));
            let ghost grid = self.enemy_drop_pts;
            if self.enemy_drop_pts.get(pos).is_none() {
                self.enemy_drop_pts.set(pos, Some(player));
            }
            proof {
                assert forall|c: Point| self.contains(c) implies #[trigger] self.enemy_drop_pts.at_pos(
                    c,
                ) == (match old(self).enemy_drop_pts.at_pos(c) {
                    Some(o) => Some(o),
                    None => first_claim(sites@, i as int + 1, c),
                }) by {
                    assert(grid.has(c));
                }
            }
            i += 1;
        }
    }

    /// Takes in the lines of a turn: its number, for every player its
    /// reserve, its ships and its deposit sites, and the cells that changed.
    /// The own deposit sites that are new join the list of own sites, and the
    /// tables of nearest sites are brought up to date.
    ///
    /// Lines that do not follow the protocol, that put a ship off the grid or
    /// two ships on one cell, or that give two ships one id, are refused, and
    /// the game stays as it was.
    #[verifier::spinoff_prover]
    pub fn update_frame(&mut self, lines: &Vec<Vec<usize>>) -> (r: Result<(), Malformed>)
        requires
            old(self).wf(),
        ensures
            r.is_ok() <==> frame_ok(*old(self), lines@),
            r.is_err() ==> *final(self) == *old(self),
            r.is_ok() ==> final(self).wf() && frame_read(*old(self), *final(self), lines@),
    {
        let n = self.num_players;
        if lines.len() == 0 || lines[0].len() < 1 || lines[0][0] == 0 || lines[0][0] - 1
            > self.constants.max_turns {
            return Err(Malformed {  });
        }
        let mut ships: HashMap<usize, Ship> = HashMap::new();
        let mut ship_map: GMap<Option<usize>> = GMap::filled(self.width, self.height, None);
        let mut rosters: Vec<Vec<usize>> = Vec::new();
        let mut energy: Vec<usize> = Vec::new();
        let mut dropoffs: Vec<Dropoff> = Vec::new();
        let mut enemy_sites: Vec<(Point, usize)> = Vec::new();
        let mut my_sites: Vec<Point> = Vec::new();
        let mut c: usize = 0;
        while c < self.my_drop_pts.len()
            invariant
                c <= self.my_drop_pts.len(),
                my_sites@ == self.my_drop_pts@.subrange(0, c as int),
            decreases self.my_drop_pts.len() - c,
        {
            my_sites.push(self.my_drop_pts[c]);
            assert(my_sites@ =~= self.my_drop_pts@.subrange(0, c as int + 1));
            c += 1;
        }
        let ghost before = self.my_drop_pts@;
        proof {
            assert(my_sites@ =~= before);
            assert(my_sites@.subrange(0, before.len() as int) =~= before);
            assert forall|pt: Point| self.contains(pt) implies (#[trigger] ship_map.at_pos(pt)).is_none() by {
                assert(ship_map.at(pt.x as int, pt.y as int).is_none());
            }
            assert forall|i: int| 0 <= i < my_sites.len() implies self.contains(
                #[trigger] my_sites[i],
            ) by {
                assert(self.contains(self.my_drop_pts@[i]));
            }
        }
        let mut s: usize = 1;
        let mut p: usize = 0;
        while p < n
            invariant
                self.wf(),
                *self == *old(self),
                n == self.num_players,
                before == self.my_drop_pts@,
                lines.len() > 0,
                p <= n,
                s == section_start(lines@, p as int),
                1 <= s <= lines.len(),
                forall|q: int| 0 <= q < p ==> #[trigger] section_ok(lines@, self.w(), self.h(), q),
                ships_read(*self, lines@, p as int, 0, ships@, ship_map),
                ships_distinct(lines@, p as int, 0),
                rosters.len() == p,
                energy.len() == p,
                forall|q: int|
                    0 <= q < p ==> (#[trigger] rosters[q]).len() == lines[section_start(lines@, q)][1]
                        && energy[q] == lines[section_start(lines@, q)][3],
                forall|q: int, k: int|
                    0 <= q < p && 0 <= k < rosters[q].len() ==> rosters[q][k] == (#[trigger] ship_at(
                        lines@,
                        q,
                        k,
                    )).ship_id,
                forall|i: int| 0 <= i < my_sites.len() ==> self.contains(#[trigger] my_sites[i]),
                forall|i: int| 0 <= i < enemy_sites.len() ==> self.contains((#[trigger] enemy_sites[i]).0),
                sites_read(
                    lines@,
                    self.my_pid as int,
                    if p > self.my_pid {
                        lines[section_start(lines@, self.my_pid as int)][2] as int
                    } else {
                        0
                    },
                    before,
                    my_sites@,
                ),
                dropoffs@ == sites_upto(lines@, p as int),
                enemy_sites@ == foreign(dropoffs@, self.my_pid),
            decreases n - p,
        {
            if s >= lines.len() {
                proof {
                    assert(!section_ok(lines@, self.w(), self.h(), p as int));
                }
                return Err(Malformed {  });
            }
            let player_info = &lines[s];
            if player_info.len() < 4 || player_info[0] != p || player_info[3] > MAX_CELL || (
            s as u128) + 1 + (player_info[1] as u128) + (player_info[2] as u128)
                > lines.len() as u128 {
                proof {
                    assert(!section_ok(lines@, self.w(), self.h(), p as int));
                }
                return Err(Malformed {  });
            }
            let num_ships = player_info[1];
            let num_dropoffs = player_info[2];
            let roster = match self.read_ships(lines, p, s, &mut ships, &mut ship_map) {
                Ok(roster) => roster,
                Err(e) => {
                    proof {
                        if frame_ok(*self, lines@) {
                            assert(section_ok(lines@, self.w(), self.h(), p as int));
                            if p + 1 < n {
                                lemma_distinct_upto(lines@, n as int, p as int + 1, 0);
                            }
                        }
                    }
                    return Err(e);
                },
            };
            match self.read_sites(
                lines,
                p,
                s,
                &mut dropoffs,
                &mut my_sites,
                &mut enemy_sites,
                Ghost(before),
            ) {
                Ok(_) => {},
                Err(e) => {
                    proof {
                        if frame_ok(*self, lines@) {
                            assert(section_ok(lines@, self.w(), self.h(), p as int));
                        }
                    }
                    return Err(e);
                },
            }
            proof {
                assert(section_ok(lines@, self.w(), self.h(), p as int));
            }
            rosters.push(roster);
            energy.push(player_info[3]);
            s = s + 1 + num_ships + num_dropoffs;
            p += 1;
        }
        if !self.check_updates(lines, s) {
            return Err(Malformed {  });
        }
        proof {
            assert(frame_ok(*self, lines@));
        }
        let ghost old_game = *self;
        let ghost idx0 = self.nearest_drop_pt_idx;
        let ghost dist0 = self.nearest_drop_pt_dist;
        self.turn_number = lines[0][0] - 1;
        self.ships = ships;
        self.ship_id_by_player = rosters;
        self.ship_map = ship_map;
        self.dropoffs = dropoffs;
        self.energy = energy;
        self.note_enemy_sites(&enemy_sites);
        if my_sites.len() > self.my_drop_pts.len() {
            self.my_drop_pts = my_sites;
            proof {
                assert(crate::vmaps::bases_in_grid(self.w(), self.h(), self.my_drop_pts@));
            }
            self.update_dropoff_maps();
        } else {
            proof {
                assert(my_sites@ =~= before);
            }
        }
        proof {
            assert(self.map_ok());
        }
        self.apply_updates(lines, s);
        proof {
            let w = self.w();
            let h = self.h();
            assert(self.ships_ok()) by {
                assert forall|id: usize| #[trigger] self.ships@.contains_key(id) implies self.ship_ok(
                    id,
                    self.ships@[id],
                ) && self.ship_map.at_pos(self.ships@[id].pos) == Some(id) by {
                    assert(old_game.ship_ok(id, self.ships@[id]));
                }
            }
            assert(self.roster_ok()) by {
                assert forall|pl: int, i: int|
                    0 <= pl < self.num_players && 0 <= i < self.roster(pl).len() implies {
                    &&& self.ships@.contains_key(#[trigger] self.roster(pl)[i])
                    &&& self.ships@[self.roster(pl)[i]].player == pl
                } by {
                    assert(self.roster(pl)[i] == ship_at(lines@, pl, i).ship_id);
                    assert(ship_before(lines@, n as int, 0, pl, i));
                }
                assert forall|pl: int| 0 <= pl < self.num_players implies (
                #[trigger] self.roster(pl)).no_duplicates() by {
                    assert forall|i: int, j: int|
                        0 <= i < self.roster(pl).len() && 0 <= j < self.roster(pl).len() && i
                            != j implies self.roster(pl)[i] != self.roster(pl)[j] by {
                        assert(ship_before(lines@, n as int, 0, pl, i));
                        assert(ship_before(lines@, n as int, 0, pl, j));
                        assert(self.roster(pl)[i] == ship_at(lines@, pl, i).ship_id);
                        assert(self.roster(pl)[j] == ship_at(lines@, pl, j).ship_id);
                    }
                }
            }
            assert(self.players_ok()) by {
                assert forall|i: int| 0 <= i < self.energy.len() implies (#[trigger] self.energy[i])
                    <= MAX_CELL by {
                    assert(section_ok(lines@, w, h, i));
                    assert(self.roster(i).len() == lines@[section_start(lines@, i)][1]);
                }
                assert forall|i: int| 0 <= i < self.factories.len() implies self.contains(
                    (#[trigger] self.factories[i]).pos,
                ) by {
                    assert(old_game.contains(old_game.factories[i].pos));
                }
            }
            assert(self.rules_ok());
            assert(self.drop_maps_ok());
            assert(frame_read(*old(self), *self, lines@));
        }
        Ok(())
    }
}

} // verus!
