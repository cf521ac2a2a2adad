//! Reading the textual level description: comma-separated terrain records,
//! card records, and the starting position. Every reader is specified
//! against a mathematical model of the format, and a malformed input is
//! ruled out by the interpreting function's precondition (a caller tests
//! it first with [`starting_conditions_well_formed`]).

use vstd::prelude::*;
use vstd::string::StrSliceExecFns;
use crate::model::Board;
use crate::model::Card;
use crate::model::Corner;
use crate::model::Direction;
use crate::model::Location;
use crate::model::Terrain;
use crate::model::Tile;

verus! {

broadcast use vstd::string::group_string_axioms;

/// Is this an ASCII decimal digit?
pub open spec fn is_digit(c: char) -> bool {
    48 <= c as int <= 57
}

/// The value of an ASCII decimal digit.
pub open spec fn digit_val(c: char) -> int {
    c as int - 48
}

/// The value of a string of decimal digits, most significant first.
pub open spec fn digits_val(s: Seq<char>) -> int
    decreases s.len(),
{
    if s.len() == 0 {
        0
    } else {
        digits_val(s.drop_last()) * 10 + digit_val(s.last())
    }
}

/// Is every character a decimal digit?
pub open spec fn all_digits(s: Seq<char>) -> bool {
    forall|i: int| 0 <= i < s.len() ==> is_digit(#[trigger] s[i])
}

/// Is this the text of an integer: an optional sign followed by at least
/// one decimal digit?
pub open spec fn is_int_literal(s: Seq<char>) -> bool {
    if s.len() == 0 {
        false
    } else if s[0] == '-' || s[0] == '+' {
        s.len() >= 2 && all_digits(s.drop_first())
    } else {
        all_digits(s)
    }
}

/// The signed value of an integer literal.
pub open spec fn int_literal_val(s: Seq<char>) -> int {
    if s.len() > 0 && s[0] == '-' {
        -digits_val(s.drop_first())
    } else if s.len() > 0 && s[0] == '+' {
        digits_val(s.drop_first())
    } else {
        digits_val(s)
    }
}

/// Does this text denote an `i32`: an integer literal whose value fits?
pub open spec fn parses_to_i32(s: Seq<char>) -> bool {
    is_int_literal(s) && i32::MIN as int <= int_literal_val(s) <= i32::MAX as int
}

/// Do two strings hold the same characters?
fn str_eq(a: &str, b: &str) -> (r: bool)
    ensures
        r == (a@ == b@),
{
    let na = a.unicode_len();
    let nb = b.unicode_len();
    if na != nb {
        return false;
    }
    let mut i: usize = 0;
    while i < na
        invariant
            0 <= i <= na,
            na == a@.len(),
            na == b@.len(),
            forall|k: int| 0 <= k < i ==> a@[k] == b@[k],
        decreases na - i,
    {
        if a.get_char(i) != b.get_char(i) {
            return false;
        }
        i += 1;
    }
    proof {
        assert(a@ =~= b@);
    }
    true
}

proof fn lemma_digits_val_push(s: Seq<char>, c: char)
    ensures
        digits_val(s.push(c)) == digits_val(s) * 10 + digit_val(c),
{
    assert(s.push(c).drop_last() =~= s);
    assert(s.push(c).last() == c);
}

proof fn lemma_digits_val_nonneg(s: Seq<char>)
    requires
        all_digits(s),
    ensures
        digits_val(s) >= 0,
    decreases s.len(),
{
    if s.len() > 0 {
        assert(forall|i: int|
            0 <= i < s.drop_last().len() ==> #[trigger] s.drop_last()[i] == s[i]);
        lemma_digits_val_nonneg(s.drop_last());
        assert(is_digit(s.last()));
    }
}

/// The number an `i32` literal denotes, or `None` when the text is not an
/// `i32` literal (empty, a stray character, a bare sign, or a value that
/// does not fit).
#[verifier::loop_isolation(false)]
pub fn parse_i32(s: &str) -> (r: Option<i32>)
    ensures
        parses_to_i32(s@) ==> r == Some(int_literal_val(s@) as i32),
        !parses_to_i32(s@) ==> r is None,
{
    let n = s.unicode_len();
    if n == 0 {
        return None;
    }
    let c0 = s.get_char(0);
    let negative = c0 == '-';
    let start: usize = if c0 == '-' || c0 == '+' {
        1
    } else {
        0
    };
    if n == start {
        return None;
    }
    let mut acc: i64 = 0;
    let mut over: bool = false;
    let mut k: usize = start;
    proof {
        assert(s@.subrange(start as int, start as int) =~= Seq::<char>::empty());
    }
    while k < n
        invariant
            start <= k <= n,
            n == s@.len(),
            start == 0 || start == 1,
            all_digits(s@.subrange(start as int, k as int)),
            !over ==> 0 <= acc <= 0x8000_0000i64 && acc as int == digits_val(
                s@.subrange(start as int, k as int),
            ),
            over ==> digits_val(s@.subrange(start as int, k as int)) > 0x8000_0000,
        decreases n - k,
    {
        let c = s.get_char(k);
        let u = c as u32;
        if u < 48 || u > 57 {
            proof {
                assert(s@[k as int] == c);
                assert(!is_digit(c));
                if start == 1 {
                    assert(s@.drop_first()[k - 1] == c);
                    assert(!all_digits(s@.drop_first()));
                } else {
                    assert(!all_digits(s@));
                }
                assert(!is_int_literal(s@));
            }
            return None;
        }
        proof {
            assert(s@.subrange(start as int, k + 1) =~= s@.subrange(start as int, k as int).push(
                s@[k as int],
            ));
            lemma_digits_val_push(s@.subrange(start as int, k as int), s@[k as int]);
            lemma_digits_val_nonneg(s@.subrange(start as int, k as int));
        }
        let d = (u - 48) as i64;
        if over {
        } else {
            let acc2 = acc * 10 + d;
            if acc2 > 0x8000_0000i64 {
                over = true;
            } else {
                acc = acc2;
            }
        }
        k += 1;
    }
    let ghost digits = s@.subrange(start as int, n as int);
    proof {
        if start == 1 {
            assert(digits =~= s@.drop_first());
        } else {
            assert(digits =~= s@);
        }
        assert(is_int_literal(s@));
    }
    if over {
        return None;
    }
    if negative {
        proof {
            assert(int_literal_val(s@) == -(acc as int));
        }
        Some((-acc) as i32)
    } else {
        if acc > 0x7fff_ffffi64 {
            proof {
                assert(int_literal_val(s@) > i32::MAX as int);
            }
            return None;
        }
        proof {
            assert(int_literal_val(s@) == acc as int);
        }
        Some(acc as i32)
    }
}

/// The index of the first comma, or the length when there is none.
pub open spec fn first_comma(s: Seq<char>) -> int
    decreases s.len(),
{
    if s.len() == 0 {
        0
    } else if s[0] == ',' {
        0
    } else {
        1 + first_comma(s.drop_first())
    }
}

proof fn lemma_first_comma(s: Seq<char>)
    ensures
        0 <= first_comma(s) <= s.len(),
        first_comma(s) < s.len() ==> s[first_comma(s)] == ',',
        forall|k: int| 0 <= k < first_comma(s) ==> s[k] != ',',
    decreases s.len(),
{
    if s.len() > 0 && s[0] != ',' {
        lemma_first_comma(s.drop_first());
        assert(forall|k: int|
            0 <= k < s.drop_first().len() ==> #[trigger] s.drop_first()[k] == s[k + 1]);
        assert forall|k: int| 0 <= k < first_comma(s) implies s[k] != ',' by {
            if k > 0 {
                assert(s.drop_first()[k - 1] == s[k]);
            }
        }
    }
}

proof fn lemma_first_comma_at(s: Seq<char>, j: int)
    requires
        0 <= j <= s.len(),
        forall|k: int| 0 <= k < j ==> s[k] != ',',
        j < s.len() ==> s[j] == ',',
    ensures
        first_comma(s) == j,
    decreases s.len(),
{
    if s.len() > 0 && s[0] != ',' {
        assert(j >= 1);
        assert(forall|k: int|
            0 <= k < s.drop_first().len() ==> #[trigger] s.drop_first()[k] == s[k + 1]);
        lemma_first_comma_at(s.drop_first(), j - 1);
    }
}

/// The fields of a comma-separated record: splitting on every comma, with
/// empty fields kept; a string without commas is one field.
pub open spec fn split_commas_spec(s: Seq<char>) -> Seq<Seq<char>>
    decreases s.len(),
    via split_commas_spec_decreases
{
    let i = first_comma(s);
    if i >= s.len() {
        seq![s]
    } else {
        seq![s.take(i)] + split_commas_spec(s.skip(i + 1))
    }
}

#[via_fn]
proof fn split_commas_spec_decreases(s: Seq<char>) {
    lemma_first_comma(s);
}

/// Splits a record into its comma-separated fields.
#[verifier::loop_isolation(false)]
pub fn split_commas<'a>(s: &'a str) -> (r: Vec<&'a str>)
    ensures
        r@.len() == split_commas_spec(s@).len(),
        forall|k: int| 0 <= k < r@.len() ==> (#[trigger] r@[k])@ == split_commas_spec(s@)[k],
{
    let n = s.unicode_len();
    let mut result: Vec<&'a str> = Vec::new();
    let mut start: usize = 0;
    let mut k: usize = 0;
    proof {
        assert(s@.skip(0) =~= s@);
    }
    while k < n
        invariant
            0 <= start <= k <= n,
            n == s@.len(),
            forall|m: int| start <= m < k ==> s@[m] != ',',
            split_commas_spec(s@).len() == result@.len() + split_commas_spec(
                s@.skip(start as int),
            ).len(),
            forall|m: int|
                0 <= m < result@.len() ==> (#[trigger] result@[m])@ == split_commas_spec(s@)[m],
            forall|m: int|
                0 <= m < split_commas_spec(s@.skip(start as int)).len() ==> split_commas_spec(
                    s@,
                )[result@.len() + m] == #[trigger] split_commas_spec(s@.skip(start as int))[m],
        decreases n - k,
    {
        let c = s.get_char(k);
        if c == ',' {
            let field = s.substring_char(start, k);
            proof {
                let tail = s@.skip(start as int);
                let rest = s@.skip(k + 1);
                assert(forall|m: int| 0 <= m < tail.len() ==> #[trigger] tail[m] == s@[
                    m + start]);
                lemma_first_comma_at(tail, k - start);
                assert(tail.take(k - start) =~= s@.subrange(start as int, k as int));
                assert(tail.skip(k - start + 1) =~= rest);
                let piece = seq![tail.take(k - start)];
                assert(split_commas_spec(tail) == piece + split_commas_spec(rest));
                assert(split_commas_spec(tail).len() == 1 + split_commas_spec(rest).len());
                assert((piece + split_commas_spec(rest))[0] == tail.take(k - start));
                assert(forall|m: int|
                    0 <= m < split_commas_spec(rest).len() ==> (piece + split_commas_spec(rest))[1
                        + m] == #[trigger] split_commas_spec(rest)[m]);
                assert(field@ == split_commas_spec(s@)[result@.len() as int]);
            }
            result.push(field);
            start = k + 1;
        }
        k += 1;
    }
    let field = s.substring_char(start, n);
    proof {
        let tail = s@.skip(start as int);
        assert(forall|m: int| 0 <= m < tail.len() ==> #[trigger] tail[m] == s@[m + start]);
        lemma_first_comma_at(tail, n - start);
        assert(split_commas_spec(tail) == seq![tail]);
        assert(split_commas_spec(tail)[0] == tail);
        assert(tail =~= s@.subrange(start as int, n as int));
        assert(field@ == split_commas_spec(s@)[result@.len() as int]);
    }
    result.push(field);
    result
}

/// The direction a slope or conveyor field names.
pub open spec fn direction_code(s: Seq<char>) -> Option<Direction> {
    if s == "north"@ {
        Some(Direction::North)
    } else if s == "south"@ {
        Some(Direction::South)
    } else if s == "west"@ {
        Some(Direction::West)
    } else if s == "east"@ {
        Some(Direction::East)
    } else {
        None
    }
}

/// The corner a tile field names; anything else means no corner.
pub open spec fn corner_code(s: Seq<char>) -> Option<Corner> {
    if s == "nw"@ {
        Some(Corner::Northwest)
    } else if s == "ne"@ {
        Some(Corner::Northeast)
    } else if s == "se"@ {
        Some(Corner::Southeast)
    } else if s == "sw"@ {
        Some(Corner::Southwest)
    } else {
        None
    }
}

/// Is this a terrain kind the format knows? A record of any other kind is
/// ignored.
pub open spec fn known_kind(k: Seq<char>) -> bool {
    ||| k == "hole"@
    ||| k == "ground"@
    ||| k == "slope"@
    ||| k == "trap"@
    ||| k == "sand"@
    ||| k == "water"@
    ||| k == "spring"@
    ||| k == "portal"@
    ||| k == "conveyor"@
    ||| k == "ice"@
}

/// Is this terrain record well formed? A record of an unknown kind is
/// always acceptable (it is ignored); a known kind needs coordinates, an
/// elevation where present, and its kind-specific fields.
pub open spec fn map_line_wf(line: Seq<char>) -> bool {
    let f = split_commas_spec(line);
    if !known_kind(f[0]) {
        true
    } else {
        &&& f.len() >= 3
        &&& parses_to_i32(f[1])
        &&& parses_to_i32(f[2])
        &&& (f.len() >= 4 ==> parses_to_i32(f[3]))
        &&& (f[0] == "slope"@ || f[0] == "conveyor"@ ==> f.len() >= 5 && direction_code(f[4])
            is Some)
        &&& (f[0] == "portal"@ ==> f.len() >= 6 && parses_to_i32(f[4]) && parses_to_i32(f[5]))
    }
}

/// The tile a well-formed terrain record puts on the board, or `None` for
/// a record of an unknown kind.
pub open spec fn map_line_entry(line: Seq<char>) -> Option<(Location, Tile)> {
    let f = split_commas_spec(line);
    if !known_kind(f[0]) {
        None
    } else {
        let loc = Location {
            x: int_literal_val(f[1]) as i32,
            y: int_literal_val(f[2]) as i32,
        };
        let elevation = if f.len() >= 4 {
            int_literal_val(f[3]) as i32
        } else {
            0
        };
        let corner = if f.len() >= 5 {
            corner_code(f[4])
        } else {
            None
        };
        if f[0] == "hole"@ {
            Some((loc, Tile { terrain: Terrain::Hole, elevation, corner: None }))
        } else if f[0] == "ground"@ {
            Some((loc, Tile { terrain: Terrain::Ground, elevation, corner }))
        } else if f[0] == "slope"@ {
            Some(
                (
                    loc,
                    Tile {
                        terrain: Terrain::Slope(direction_code(f[4])->Some_0),
                        elevation,
                        corner: None,
                    },
                ),
            )
        } else if f[0] == "trap"@ {
            Some((loc, Tile { terrain: Terrain::Trap, elevation, corner: None }))
        } else if f[0] == "sand"@ {
            Some((loc, Tile { terrain: Terrain::Quicksand, elevation, corner: None }))
        } else if f[0] == "water"@ {
            Some((loc, Tile { terrain: Terrain::Water, elevation, corner: None }))
        } else if f[0] == "spring"@ {
            Some((loc, Tile { terrain: Terrain::Spring, elevation, corner: None }))
        } else if f[0] == "portal"@ {
            let exit = Location {
                x: int_literal_val(f[4]) as i32,
                y: int_literal_val(f[5]) as i32,
            };
            Some((loc, Tile { terrain: Terrain::Portal(exit), elevation, corner: None }))
        } else if f[0] == "conveyor"@ {
            Some(
                (
                    loc,
                    Tile {
                        terrain: Terrain::Conveyor(direction_code(f[4])->Some_0),
                        elevation,
                        corner: None,
                    },
                ),
            )
        } else {
            Some((loc, Tile { terrain: Terrain::Ice, elevation, corner }))
        }
    }
}

/// The board the terrain records build, reading top to bottom: a later
/// record for the same location replaces the earlier one.
pub open spec fn board_of_lines(lines: Seq<Seq<char>>) -> Map<Location, Tile>
    decreases lines.len(),
{
    if lines.len() == 0 {
        Map::empty()
    } else {
        let m = board_of_lines(lines.drop_last());
        match map_line_entry(lines.last()) {
            Some(e) => m.insert(e.0, e.1),
            None => m,
        }
    }
}

/// Is this card record well formed: an airborne and a rolling field, each
/// an `i32` literal?
pub open spec fn card_line_wf(line: Seq<char>) -> bool {
    let f = split_commas_spec(line);
    f.len() >= 2 && parses_to_i32(f[0]) && parses_to_i32(f[1])
}

/// The card a well-formed card record denotes: airborne first, rolling
/// second.
pub open spec fn card_of_line(line: Seq<char>) -> Card {
    let f = split_commas_spec(line);
    Card { rolling: int_literal_val(f[1]) as i32, airborne: int_literal_val(f[0]) as i32 }
}

/// Is the starting-position record well formed: two `i32` coordinates?
pub open spec fn position_line_wf(line: Seq<char>) -> bool {
    let f = split_commas_spec(line);
    f.len() >= 2 && parses_to_i32(f[0]) && parses_to_i32(f[1])
}

/// The location a well-formed starting-position record denotes.
pub open spec fn position_of_line(line: Seq<char>) -> Location {
    let f = split_commas_spec(line);
    Location { x: int_literal_val(f[0]) as i32, y: int_literal_val(f[1]) as i32 }
}

/// Are all three stanzas well formed? [`interpret_starting_conditions`]
/// requires this; a caller holding raw text checks it first with
/// [`starting_conditions_well_formed`].
pub open spec fn starting_conditions_wf(
    map_lines: Seq<Seq<char>>,
    move_lines: Seq<Seq<char>>,
    position_line: Seq<char>,
) -> bool {
    &&& forall|i: int| 0 <= i < map_lines.len() ==> map_line_wf(#[trigger] map_lines[i])
    &&& forall|i: int| 0 <= i < move_lines.len() ==> card_line_wf(#[trigger] move_lines[i])
    &&& position_line_wf(position_line)
}

fn read_direction(s: &str) -> (r: Option<Direction>)
    ensures
        r == direction_code(s@),
{
    if str_eq(s, "north") {
        Some(Direction::North)
    } else if str_eq(s, "south") {
        Some(Direction::South)
    } else if str_eq(s, "west") {
        Some(Direction::West)
    } else if str_eq(s, "east") {
        Some(Direction::East)
    } else {
        None
    }
}

fn read_corner(s: &str) -> (r: Option<Corner>)
    ensures
        r == corner_code(s@),
{
    if str_eq(s, "nw") {
        Some(Corner::Northwest)
    } else if str_eq(s, "ne") {
        Some(Corner::Northeast)
    } else if str_eq(s, "se") {
        Some(Corner::Southeast)
    } else if str_eq(s, "sw") {
        Some(Corner::Southwest)
    } else {
        None
    }
}

proof fn lemma_split_nonempty(s: Seq<char>)
    ensures
        split_commas_spec(s).len() >= 1,
{
    lemma_first_comma(s);
}

proof fn lemma_kind_literals_distinct()
    ensures
        "hole"@ != "ground"@,
        "hole"@ != "slope"@,
        "hole"@ != "trap"@,
        "hole"@ != "sand"@,
        "hole"@ != "water"@,
        "hole"@ != "spring"@,
        "hole"@ != "portal"@,
        "hole"@ != "conveyor"@,
        "hole"@ != "ice"@,
        "ground"@ != "slope"@,
        "ground"@ != "trap"@,
        "ground"@ != "sand"@,
        "ground"@ != "water"@,
        "ground"@ != "spring"@,
        "ground"@ != "portal"@,
        "ground"@ != "conveyor"@,
        "ground"@ != "ice"@,
        "slope"@ != "trap"@,
        "slope"@ != "sand"@,
        "slope"@ != "water"@,
        "slope"@ != "spring"@,
        "slope"@ != "portal"@,
        "slope"@ != "conveyor"@,
        "slope"@ != "ice"@,
        "trap"@ != "sand"@,
        "trap"@ != "water"@,
        "trap"@ != "spring"@,
        "trap"@ != "portal"@,
        "trap"@ != "conveyor"@,
        "trap"@ != "ice"@,
        "sand"@ != "water"@,
        "sand"@ != "spring"@,
        "sand"@ != "portal"@,
        "sand"@ != "conveyor"@,
        "sand"@ != "ice"@,
        "water"@ != "spring"@,
        "water"@ != "portal"@,
        "water"@ != "conveyor"@,
        "water"@ != "ice"@,
        "spring"@ != "portal"@,
        "spring"@ != "conveyor"@,
        "spring"@ != "ice"@,
        "portal"@ != "conveyor"@,
        "portal"@ != "ice"@,
        "conveyor"@ != "ice"@,
{
    reveal_strlit("hole");
    reveal_strlit("ground");
    reveal_strlit("slope");
    reveal_strlit("trap");
    reveal_strlit("sand");
    reveal_strlit("water");
    reveal_strlit("spring");
    reveal_strlit("portal");
    reveal_strlit("conveyor");
    reveal_strlit("ice");
    assert("hole"@.len() == 4);
    assert("hole"@[0] == 'h');
    assert("ground"@.len() == 6);
    assert("ground"@[0] == 'g');
    assert("slope"@.len() == 5);
    assert("slope"@[0] == 's');
    assert("trap"@.len() == 4);
    assert("trap"@[0] == 't');
    assert("sand"@.len() == 4);
    assert("sand"@[0] == 's');
    assert("water"@.len() == 5);
    assert("water"@[0] == 'w');
    assert("spring"@.len() == 6);
    assert("spring"@[0] == 's');
    assert("portal"@.len() == 6);
    assert("portal"@[0] == 'p');
    assert("conveyor"@.len() == 8);
    assert("conveyor"@[0] == 'c');
    assert("ice"@.len() == 3);
    assert("ice"@[0] == 'i');
}

/// Reads one terrain record. `None` means the record is malformed;
/// `Some(None)` means it is of an unknown kind and is ignored.
fn read_map_line(s: &str) -> (r: Option<Option<(Location, Tile)>>)
    ensures
        r is Some <==> map_line_wf(s@),
        r matches Some(e) ==> e == map_line_entry(s@),
{
    proof {
        lemma_split_nonempty(s@);
        lemma_kind_literals_distinct();
    }
    let f = split_commas(s);
    let kind = f[0];
    let is_hole = str_eq(kind, "hole");
    let is_ground = str_eq(kind, "ground");
    let is_slope = str_eq(kind, "slope");
    let is_trap = str_eq(kind, "trap");
    let is_sand = str_eq(kind, "sand");
    let is_water = str_eq(kind, "water");
    let is_spring = str_eq(kind, "spring");
    let is_portal = str_eq(kind, "portal");
    let is_conveyor = str_eq(kind, "conveyor");
    let is_ice = str_eq(kind, "ice");
    if !(is_hole || is_ground || is_slope || is_trap || is_sand || is_water || is_spring
        || is_portal || is_conveyor || is_ice) {
        return Some(None);
    }
    if f.len() < 3 {
        return None;
    }
    let x = match parse_i32(f[1]) {
        Some(v) => v,
        None => {
            return None;
        },
    };
    let y = match parse_i32(f[2]) {
        Some(v) => v,
        None => {
            return None;
        },
    };
    let elevation = if f.len() >= 4 {
        match parse_i32(f[3]) {
            Some(v) => v,
            None => {
                return None;
            },
        }
    } else {
        0
    };
    let loc = Location { x, y };
    if is_hole {
        return Some(Some((loc, Tile { terrain: Terrain::Hole, elevation, corner: None })));
    }
    if is_ground || is_ice {
        let corner = if f.len() >= 5 {
            read_corner(f[4])
        } else {
            None
        };
        let terrain = if is_ground {
            Terrain::Ground
        } else {
            Terrain::Ice
        };
        return Some(Some((loc, Tile { terrain, elevation, corner })));
    }
    if is_slope || is_conveyor {
        if f.len() < 5 {
            return None;
        }
        let d = match read_direction(f[4]) {
            Some(d) => d,
            None => {
                return None;
            },
        };
        let terrain = if is_slope {
            Terrain::Slope(d)
        } else {
            Terrain::Conveyor(d)
        };
        return Some(Some((loc, Tile { terrain, elevation, corner: None })));
    }
    if is_portal {
        if f.len() < 6 {
            return None;
        }
        let ex = match parse_i32(f[4]) {
            Some(v) => v,
            None => {
                return None;
            },
        };
        let ey = match parse_i32(f[5]) {
            Some(v) => v,
            None => {
                return None;
            },
        };
        let exit = Location { x: ex, y: ey };
        return Some(Some((loc, Tile { terrain: Terrain::Portal(exit), elevation, corner: None })));
    }
    let terrain = if is_trap {
        Terrain::Trap
    } else if is_sand {
        Terrain::Quicksand
    } else if is_water {
        Terrain::Water
    } else {
        Terrain::Spring
    };
    Some(Some((loc, Tile { terrain, elevation, corner: None })))
}

/// Reads one card record, or `None` when it is malformed.
fn read_card_line(s: &str) -> (r: Option<Card>)
    ensures
        r is Some <==> card_line_wf(s@),
        r matches Some(c) ==> c == card_of_line(s@),
{
    proof {
        lemma_split_nonempty(s@);
    }
    let f = split_commas(s);
    if f.len() < 2 {
        return None;
    }
    let airborne = match parse_i32(f[0]) {
        Some(v) => v,
        None => {
            return None;
        },
    };
    let rolling = match parse_i32(f[1]) {
        Some(v) => v,
        None => {
            return None;
        },
    };
    Some(Card { rolling, airborne })
}

/// Reads the starting-position record, or `None` when it is malformed.
fn read_position_line(s: &str) -> (r: Option<Location>)
    ensures
        r is Some <==> position_line_wf(s@),
        r matches Some(l) ==> l == position_of_line(s@),
{
    proof {
        lemma_split_nonempty(s@);
    }
    let f = split_commas(s);
    if f.len() < 2 {
        return None;
    }
    let x = match parse_i32(f[0]) {
        Some(v) => v,
        None => {
            return None;
        },
    };
    let y = match parse_i32(f[1]) {
        Some(v) => v,
        None => {
            return None;
        },
    };
    Some(Location { x, y })
}

/// Tests whether every line of the three stanzas is well formed, which is
/// what [`interpret_starting_conditions`] requires of its input.
#[verifier::loop_isolation(false)]
pub fn starting_conditions_well_formed(
    map_lines: &Vec<&str>,
    move_lines: &Vec<&str>,
    starting_position_line: &str,
) -> (r: bool)
    ensures
        r == starting_conditions_wf(
            map_lines.deep_view(),
            move_lines.deep_view(),
            starting_position_line@,
        ),
{
    let mut i: usize = 0;
    while i < map_lines.len()
        invariant
            0 <= i <= map_lines@.len(),
            forall|k: int| 0 <= k < i ==> map_line_wf(#[trigger] map_lines.deep_view()[k]),
        decreases map_lines@.len() - i,
    {
        if read_map_line(map_lines[i]).is_none() {
            proof {
                assert(map_lines.deep_view()[i as int] == map_lines@[i as int]@);
                assert(!map_line_wf(map_lines.deep_view()[i as int]));
            }
            return false;
        }
        i += 1;
    }
    let mut j: usize = 0;
    while j < move_lines.len()
        invariant
            0 <= j <= move_lines@.len(),
            forall|k: int| 0 <= k < j ==> card_line_wf(#[trigger] move_lines.deep_view()[k]),
        decreases move_lines@.len() - j,
    {
        if read_card_line(move_lines[j]).is_none() {
            proof {
                assert(move_lines.deep_view()[j as int] == move_lines@[j as int]@);
                assert(!card_line_wf(move_lines.deep_view()[j as int]));
            }
            return false;
        }
        j += 1;
    }
    read_position_line(starting_position_line).is_some()
}

/// Builds the board, the card list, and the starting position from the
/// three stanzas of the level text. Records of unknown kinds are ignored;
/// a later terrain record for a location replaces the earlier one.
#[verifier::loop_isolation(false)]
pub fn interpret_starting_conditions<'a>(
    map_lines: Vec<&'a str>,
    move_lines: Vec<&'a str>,
    starting_position_line: &'a str,
) -> (r: (Board, Vec<Card>, Location))
    requires
        starting_conditions_wf(
            map_lines.deep_view(),
            move_lines.deep_view(),
            starting_position_line@,
        ),
    ensures
        r.0.wf(),
        r.0@ == board_of_lines(map_lines.deep_view()),
        r.1@.len() == move_lines@.len(),
        forall|k: int| 0 <= k < r.1@.len() ==> r.1@[k] == card_of_line(
            #[trigger] move_lines.deep_view()[k],
        ),
        r.2 == position_of_line(starting_position_line@),
{
    let ghost mlines = map_lines.deep_view();
    let mut map = Board::new();
    let mut i: usize = 0;
    proof {
        assert(mlines.take(0) =~= Seq::<Seq<char>>::empty());
    }
    while i < map_lines.len()
        invariant
            0 <= i <= map_lines@.len(),
            map.wf(),
            map@ == board_of_lines(mlines.take(i as int)),
        decreases map_lines@.len() - i,
    {
        proof {
            assert(mlines.take(i + 1).drop_last() =~= mlines.take(i as int));
            assert(mlines.take(i + 1).last() == mlines[i as int]);
            assert(mlines[i as int] == map_lines@[i as int]@);
        }
        match read_map_line(map_lines[i]) {
            Some(Some(entry)) => {
                map.insert(entry.0, entry.1);
            },
            Some(None) => {},
            None => {
                proof {
                    assert(false);
                }
            },
        }
        i += 1;
    }
    proof {
        assert(mlines.take(map_lines@.len() as int) =~= mlines);
    }
    let mut moves: Vec<Card> = Vec::new();
    let mut j: usize = 0;
    while j < move_lines.len()
        invariant
            0 <= j <= move_lines@.len(),
            moves@.len() == j,
            forall|k: int| 0 <= k < j ==> moves@[k] == card_of_line(
                #[trigger] move_lines.deep_view()[k],
            ),
        decreases move_lines@.len() - j,
    {
        proof {
            assert(move_lines.deep_view()[j as int] == move_lines@[j as int]@);
        }
        match read_card_line(move_lines[j]) {
            Some(c) => {
                moves.push(c);
            },
            None => {
                proof {
                    assert(false);
                }
            },
        }
        j += 1;
    }
    let starting_position = match read_position_line(starting_position_line) {
        Some(l) => l,
        None => vstd::pervasive::unreached(),
    };
    (map, moves, starting_position)
}

} // verus!
