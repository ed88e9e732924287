//! Reading a map from text: an executable reader for each production of
//! the grammar, each proved to read exactly what the grammar says.

use crate::grammar;
use crate::grammar::{Parsed, TileEntry};
use crate::roundtrip::{lemma_digits_end, lemma_no_blank};
use crate::strings::push_char;
use crate::tilemap::{
    definitions_view, nav_points_view, NavPoint, NavPointView, TileDefinition, TileDefinitionView,
    TileMap, TileMapView,
};
use std::collections::BTreeMap;
use vstd::prelude::*;

verus! {

/// What an executable reader returns: the value and the position behind
/// it, or the position at which the text leaves the grammar.
pub type Read<T> = Result<(T, usize), usize>;

/// `got` is `want`, position for position.
pub open spec fn same_place(got: Result<usize, usize>, want: Result<int, int>) -> bool {
    match got {
        Ok(behind) => want == Ok::<int, int>(behind as int),
        Err(at) => want == Err::<int, int>(at as int),
    }
}

/// The characters of `text`, to be read by position.
pub(crate) fn characters(text: &str) -> (chars: Vec<char>)
    ensures
        chars@ == text@,
{
    let mut chars: Vec<char> = Vec::new();
    for c in it: text.chars()
        invariant
            chars@ == it.seq().take(it.index() as int),
    {
        assert(it.seq().take(it.index() + 1) =~= it.seq().take(it.index() as int).push(c));
        chars.push(c);
    }
    assert(chars@ =~= text@);
    chars
}

/// Whether `c` is a blank.
pub(crate) fn is_blank(c: char) -> (blank: bool)
    ensures
        blank == grammar::is_blank(c),
{
    c == ' ' || c == '\t' || c == '\n' || c == '\r'
}

/// Whether `c` is a decimal digit.
pub(crate) fn is_digit(c: char) -> (digit: bool)
    ensures
        digit == grammar::is_digit(c),
{
    '0' <= c && c <= '9'
}

/// The first position from `at` on that holds no blank.
pub(crate) fn skip_blank(text: &Vec<char>, at: usize) -> (start: usize)
    requires
        at <= text@.len(),
    ensures
        start == grammar::skip_blank(text@, at as int),
        at <= start <= text@.len(),
{
    let mut start = at;
    while start < text.len() && is_blank(text[start])
        invariant
            at <= start <= text@.len(),
            grammar::skip_blank(text@, at as int) == grammar::skip_blank(text@, start as int),
        decreases text@.len() - start,
    {
        start += 1;
    }
    start
}

/// Blanks, then the character `c`.
pub(crate) fn symbol(text: &Vec<char>, at: usize, c: char) -> (behind: Result<usize, usize>)
    requires
        at <= text@.len(),
    ensures
        same_place(behind, grammar::symbol(text@, at as int, c)),
        behind matches Ok(b) ==> at < b <= text@.len(),
        behind matches Err(e) ==> at <= e <= text@.len(),
{
    let start = skip_blank(text, at);
    if start < text.len() && text[start] == c {
        Ok(start + 1)
    } else {
        Err(start)
    }
}

/// Blanks, the member name `name`, blanks, a colon.
pub(crate) fn label(text: &Vec<char>, at: usize, name: &str) -> (behind: Result<usize, usize>)
    requires
        at <= text@.len(),
    ensures
        same_place(behind, grammar::label(text@, at as int, name@)),
        behind matches Ok(b) ==> at < b <= text@.len(),
        behind matches Err(e) ==> at <= e <= text@.len(),
{
    let start = skip_blank(text, at);
    let mut next = start;
    for c in it: name.chars()
        invariant
            it.seq() == name@,
            start == grammar::skip_blank(text@, at as int),
            at <= start <= text@.len(),
            next == start + it.index(),
            next <= text@.len(),
            forall|k: int| 0 <= k < it.index() ==> text@[start + k] == #[trigger] name@[k],
    {
        if next >= text.len() || text[next] != c {
            assert(!grammar::has_word(text@, start as int, name@)) by {
                if grammar::has_word(text@, start as int, name@) {
                    assert(text@[start + it.index()] == name@[it.index() as int]);
                }
            }
            return Err(start);
        }
        next += 1;
    }
    assert(grammar::has_word(text@, start as int, name@));
    symbol(text, next, ':')
}

/// The end of a structure: an optional comma, then the closing parenthesis.
pub(crate) fn close_structure(text: &Vec<char>, at: usize) -> (behind: Result<usize, usize>)
    requires
        at <= text@.len(),
    ensures
        same_place(behind, grammar::close_structure(text@, at as int)),
        behind matches Ok(b) ==> at < b <= text@.len(),
        behind matches Err(e) ==> at <= e <= text@.len(),
{
    match symbol(text, at, ',') {
        Ok(after) => symbol(text, after, ')'),
        Err(_) => symbol(text, at, ')'),
    }
}

// ---------------------------------------------------------------------
// Numbers
// ---------------------------------------------------------------------
/// A run of digits lies within the text, holds digits only, and ends
/// before a character that is none.
pub proof fn lemma_digits_run(text: Seq<char>, at: int)
    requires
        0 <= at <= text.len(),
    ensures
        at <= grammar::digits_end(text, at) <= text.len(),
        forall|k: int| at <= k < grammar::digits_end(text, at) ==> grammar::is_digit(#[trigger] text[k]),
        grammar::digits_end(text, at) < text.len() ==> !grammar::is_digit(
            text[grammar::digits_end(text, at)],
        ),
    decreases text.len() - at,
{
    if at < text.len() && grammar::is_digit(text[at]) {
        lemma_digits_run(text, at + 1);
    }
}

/// A run of digits that is read from within ends where the whole run ends.
pub proof fn lemma_digits_end_within(text: Seq<char>, at: int, within: int)
    requires
        0 <= at <= within <= text.len(),
        forall|k: int| at <= k < within ==> grammar::is_digit(#[trigger] text[k]),
    ensures
        grammar::digits_end(text, at) == grammar::digits_end(text, within),
    decreases within - at,
{
    if at < within {
        assert(grammar::is_digit(text[at]));
        lemma_digits_end_within(text, at + 1, within);
    }
}

/// More digits never denote less.
pub proof fn lemma_digits_value_grows(digits: Seq<char>, count: int)
    requires
        0 <= count <= digits.len(),
        forall|k: int| 0 <= k < digits.len() ==> grammar::is_digit(#[trigger] digits[k]),
    ensures
        grammar::digits_value(digits.take(count)) <= grammar::digits_value(digits),
    decreases digits.len() - count,
{
    if count == digits.len() {
        assert(digits.take(count) =~= digits);
    } else {
        let shorter = digits.drop_last();
        assert(grammar::is_digit(digits.last()));
        lemma_digits_value_grows(shorter, count);
        assert(shorter.take(count) =~= digits.take(count));
    }
}

/// The number that the digit `c` denotes.
fn digit_value(c: char) -> (value: u8)
    requires
        grammar::is_digit(c),
    ensures
        value == grammar::digit_value(c),
        value < 10,
{
    (c as u32 - '0' as u32) as u8
}

/// The number that the run of digits at `at` denotes, if there is a digit
/// at `at` and the number is at most `max`.
pub(crate) fn digits(text: &Vec<char>, at: usize, max: usize) -> (run: Option<(usize, usize)>)
    requires
        at <= text@.len(),
    ensures
        ({
            let end = grammar::digits_end(text@, at as int);
            let value = grammar::digits_value(text@.subrange(at as int, end));
            match run {
                Some((number, behind)) => at < end && value <= max && number == value && behind
                    == end && behind <= text@.len(),
                None => !(at < end && value <= max),
            }
        }),
{
    let mut next = at;
    let mut number: usize = 0;
    while next < text.len() && is_digit(text[next])
        invariant
            at <= next <= text@.len(),
            number == grammar::digits_value(text@.subrange(at as int, next as int)),
            number <= max,
            forall|k: int| at <= k < next ==> grammar::is_digit(#[trigger] text@[k]),
        decreases text@.len() - next,
    {
        let digit = digit_value(text[next]);
        let wide: u128 = (number as u128) * 10 + (digit as u128);
        proof {
            let longer = text@.subrange(at as int, next + 1);
            assert(longer.drop_last() =~= text@.subrange(at as int, next as int));
            assert(grammar::digits_value(longer) == wide);
        }
        if wide > max as u128 {
            proof {
                let end = grammar::digits_end(text@, at as int);
                lemma_digits_end_within(text@, at as int, next + 1);
                lemma_digits_run(text@, next + 1);
                lemma_digits_run(text@, at as int);
                let whole = text@.subrange(at as int, end);
                lemma_digits_value_grows(whole, next + 1 - at);
                assert(whole.take(next + 1 - at) =~= text@.subrange(at as int, next + 1));
            }
            return None;
        }
        number = wide as usize;
        next += 1;
    }
    proof {
        assert forall|k: int| 0 <= k < next - at implies grammar::is_digit(
            #[trigger] text@[at + k],
        ) by {}
        lemma_digits_end(text@, at as int, next - at);
    }
    if next == at {
        None
    } else {
        Some((number, next))
    }
}

/// Blanks, then a number of at most `max`.
pub(crate) fn number(text: &Vec<char>, at: usize, max: usize) -> (read: Read<usize>)
    requires
        at <= text@.len(),
    ensures
        match read {
            Ok((value, behind)) => grammar::number(text@, at as int, max as int) == Ok::<
                (int, int),
                int,
            >((value as int, behind as int)) && at < behind <= text@.len(),
            Err(e) => grammar::number(text@, at as int, max as int) == Err::<(int, int), int>(
                e as int,
            ) && at <= e <= text@.len(),
        },
{
    let start = skip_blank(text, at);
    match digits(text, start, max) {
        Some(run) => Ok(run),
        None => Err(start),
    }
}

/// Blanks, then a number of at most 65535.
pub(crate) fn read_u16(text: &Vec<char>, at: usize) -> (read: Read<u16>)
    requires
        at <= text@.len(),
    ensures
        match read {
            Ok((value, behind)) => grammar::read_u16(text@, at as int) == Ok::<(u16, int), int>(
                (value, behind as int),
            ) && at < behind <= text@.len(),
            Err(e) => grammar::read_u16(text@, at as int) == Err::<(u16, int), int>(e as int)
                && at <= e <= text@.len(),
        },
{
    match number(text, at, 0xffff) {
        Ok((value, behind)) => Ok((value as u16, behind)),
        Err(e) => Err(e),
    }
}

/// Blanks, then a number that a `usize` holds.
pub(crate) fn read_usize(text: &Vec<char>, at: usize) -> (read: Read<usize>)
    requires
        at <= text@.len(),
    ensures
        match read {
            Ok((value, behind)) => grammar::read_usize(text@, at as int) == Ok::<
                (usize, int),
                int,
            >((value, behind as int)) && at < behind <= text@.len(),
            Err(e) => grammar::read_usize(text@, at as int) == Err::<(usize, int), int>(e as int)
                && at <= e <= text@.len(),
        },
{
    number(text, at, usize::MAX)
}

/// Blanks, then a signed number from -128 to 127.
pub(crate) fn read_i8(text: &Vec<char>, at: usize) -> (read: Read<i8>)
    requires
        at <= text@.len(),
    ensures
        match read {
            Ok((value, behind)) => grammar::read_i8(text@, at as int) == Ok::<(i8, int), int>(
                (value, behind as int),
            ) && at < behind <= text@.len(),
            Err(e) => grammar::read_i8(text@, at as int) == Err::<(i8, int), int>(e as int) && at
                <= e <= text@.len(),
        },
{
    let start = skip_blank(text, at);
    proof {
        grammar::lemma_skip_blank_bounds(text@, at as int);
        lemma_no_blank(text@, start as int);
    }
    if start < text.len() && text[start] == '-' {
        match digits(text, start + 1, 128) {
            Some((magnitude, behind)) => {
                let value: i8 = if magnitude == 128 {
                    -128
                } else {
                    -(magnitude as i8)
                };
                Ok((value, behind))
            },
            None => Err(start),
        }
    } else {
        match digits(text, start, 127) {
            Some((magnitude, behind)) => Ok((magnitude as i8, behind)),
            None => Err(start),
        }
    }
}

// ---------------------------------------------------------------------
// Strings
// ---------------------------------------------------------------------
/// The character that a backslash followed by `c` stands for, if any.
pub(crate) fn unescape(c: char) -> (meant: Option<char>)
    ensures
        meant == grammar::unescape(c),
{
    if c == '"' {
        Some('"')
    } else if c == '\\' {
        Some('\\')
    } else if c == 'n' {
        Some('\n')
    } else if c == 'r' {
        Some('\r')
    } else if c == 't' {
        Some('\t')
    } else if c == '\'' {
        Some('\'')
    } else if c == '0' {
        Some('\0')
    } else {
        None
    }
}

/// Blanks, then a string between double quotes.
pub(crate) fn quoted(text: &Vec<char>, at: usize) -> (read: Read<String>)
    requires
        at <= text@.len(),
    ensures
        match read {
            Ok((content, behind)) => grammar::quoted(text@, at as int) == Ok::<
                (Seq<char>, int),
                int,
            >((content@, behind as int)) && at < behind <= text@.len(),
            Err(e) => grammar::quoted(text@, at as int) == Err::<(Seq<char>, int), int>(e as int)
                && at <= e <= text@.len(),
        },
{
    let after = match symbol(text, at, '"') {
        Ok(after) => after,
        Err(e) => {
            return Err(e);
        },
    };
    let mut content = String::new();
    let mut next = after;
    loop
        invariant
            at < after <= next <= text@.len(),
            grammar::quoted(text@, at as int) == grammar::string_rest(
                text@,
                next as int,
                content@,
            ),
        decreases text@.len() - next,
    {
        if next >= text.len() {
            return Err(next);
        }
        let c = text[next];
        if c == '"' {
            return Ok((content, next + 1));
        }
        if c == '\\' {
            if next + 1 >= text.len() {
                return Err(next);
            }
            match unescape(text[next + 1]) {
                Some(meant) => {
                    push_char(&mut content, meant);
                    next += 2;
                },
                None => {
                    return Err(next);
                },
            }
        } else {
            push_char(&mut content, c);
            next += 1;
        }
    }
}

// ---------------------------------------------------------------------
// Catalog entries
// ---------------------------------------------------------------------
/// One catalog entry: `(path:"..",cost:N)`.
pub(crate) fn read_definition(text: &Vec<char>, at: usize) -> (read: Read<TileDefinition>)
    requires
        at <= text@.len(),
    ensures
        match read {
            Ok((definition, behind)) => grammar::read_definition(text@, at as int) == Ok::<
                (TileDefinitionView, int),
                int,
            >((definition@, behind as int)) && at < behind <= text@.len(),
            Err(e) => grammar::read_definition(text@, at as int) == Err::<
                (TileDefinitionView, int),
                int,
            >(e as int) && at <= e <= text@.len(),
        },
{
    let a = match symbol(text, at, '(') {
        Ok(a) => a,
        Err(e) => {
            return Err(e);
        },
    };
    let b = match label(text, a, "path") {
        Ok(b) => b,
        Err(e) => {
            return Err(e);
        },
    };
    let (path, c) = match quoted(text, b) {
        Ok(read) => read,
        Err(e) => {
            return Err(e);
        },
    };
    let d = match symbol(text, c, ',') {
        Ok(d) => d,
        Err(e) => {
            return Err(e);
        },
    };
    let f = match label(text, d, "cost") {
        Ok(f) => f,
        Err(e) => {
            return Err(e);
        },
    };
    let (cost, g) = match read_i8(text, f) {
        Ok(read) => read,
        Err(e) => {
            return Err(e);
        },
    };
    match close_structure(text, g) {
        Ok(h) => Ok((TileDefinition { path, cost }, h)),
        Err(e) => Err(e),
    }
}

/// The catalog: a list of entries in square brackets.
pub(crate) fn read_definitions(text: &Vec<char>, at: usize) -> (read: Read<Vec<TileDefinition>>)
    requires
        at <= text@.len(),
    ensures
        match read {
            Ok((sprites, behind)) => grammar::sequence(
                text@,
                at as int,
                '[',
                ']',
                grammar::definition_reader(),
            ) == Ok::<(Seq<TileDefinitionView>, int), int>(
                (definitions_view(sprites@), behind as int),
            ) && at < behind <= text@.len(),
            Err(e) => grammar::sequence(
                text@,
                at as int,
                '[',
                ']',
                grammar::definition_reader(),
            ) == Err::<(Seq<TileDefinitionView>, int), int>(e as int) && at <= e <= text@.len(),
        },
{
    let mut next = match symbol(text, at, '[') {
        Ok(after) => after,
        Err(e) => {
            return Err(e);
        },
    };
    let mut sprites: Vec<TileDefinition> = Vec::new();
    assert(definitions_view(sprites@) =~= Seq::empty());
    loop
        invariant
            at < next <= text@.len(),
            grammar::sequence(text@, at as int, '[', ']', grammar::definition_reader())
                == grammar::items_rest(
                text@,
                next as int,
                ']',
                grammar::definition_reader(),
                definitions_view(sprites@),
            ),
        decreases text@.len() - next,
    {
        match symbol(text, next, ']') {
            Ok(after) => {
                return Ok((sprites, after));
            },
            Err(_) => {},
        }
        let (definition, behind) = match read_definition(text, next) {
            Ok(read) => read,
            Err(e) => {
                return Err(e);
            },
        };
        assert(definitions_view(sprites@.push(definition)) =~= definitions_view(sprites@).push(
            definition@,
        ));
        match symbol(text, behind, ',') {
            Ok(after) => {
                sprites.push(definition);
                next = after;
            },
            Err(_) => {
                match symbol(text, behind, ']') {
                    Ok(after) => {
                        sprites.push(definition);
                        return Ok((sprites, after));
                    },
                    Err(e) => {
                        return Err(e);
                    },
                }
            },
        }
    }
}

// ---------------------------------------------------------------------
// Navigation points
// ---------------------------------------------------------------------
/// A member that holds a 16-bit number and is followed by another member.
pub(crate) fn u16_member(text: &Vec<char>, at: usize, name: &str) -> (read: Read<u16>)
    requires
        at <= text@.len(),
    ensures
        match read {
            Ok((value, behind)) => grammar::u16_member(text@, at as int, name@) == Ok::<
                (u16, int),
                int,
            >((value, behind as int)) && at < behind <= text@.len(),
            Err(e) => grammar::u16_member(text@, at as int, name@) == Err::<(u16, int), int>(
                e as int,
            ) && at <= e <= text@.len(),
        },
{
    let a = match label(text, at, name) {
        Ok(a) => a,
        Err(e) => {
            return Err(e);
        },
    };
    let (value, b) = match read_u16(text, a) {
        Ok(read) => read,
        Err(e) => {
            return Err(e);
        },
    };
    match symbol(text, b, ',') {
        Ok(c) => Ok((value, c)),
        Err(e) => Err(e),
    }
}

/// The edges of a node: a list of ids in square brackets.
pub(crate) fn read_edges(text: &Vec<char>, at: usize) -> (read: Read<Vec<u16>>)
    requires
        at <= text@.len(),
    ensures
        match read {
            Ok((edges, behind)) => grammar::sequence(
                text@,
                at as int,
                '[',
                ']',
                grammar::u16_reader(),
            ) == Ok::<(Seq<u16>, int), int>((edges@, behind as int)) && at < behind
                <= text@.len(),
            Err(e) => grammar::sequence(text@, at as int, '[', ']', grammar::u16_reader())
                == Err::<(Seq<u16>, int), int>(e as int) && at <= e <= text@.len(),
        },
{
    let mut next = match symbol(text, at, '[') {
        Ok(after) => after,
        Err(e) => {
            return Err(e);
        },
    };
    let mut edges: Vec<u16> = Vec::new();
    loop
        invariant
            at < next <= text@.len(),
            grammar::sequence(text@, at as int, '[', ']', grammar::u16_reader())
                == grammar::items_rest(text@, next as int, ']', grammar::u16_reader(), edges@),
        decreases text@.len() - next,
    {
        match symbol(text, next, ']') {
            Ok(after) => {
                return Ok((edges, after));
            },
            Err(_) => {},
        }
        let (edge, behind) = match read_u16(text, next) {
            Ok(read) => read,
            Err(e) => {
                return Err(e);
            },
        };
        match symbol(text, behind, ',') {
            Ok(after) => {
                edges.push(edge);
                next = after;
            },
            Err(_) => {
                match symbol(text, behind, ']') {
                    Ok(after) => {
                        edges.push(edge);
                        return Ok((edges, after));
                    },
                    Err(e) => {
                        return Err(e);
                    },
                }
            },
        }
    }
}

/// One node of the navigation graph: `(id:N,x:N,y:N,edges:[N,..])`.
pub(crate) fn read_nav_point(text: &Vec<char>, at: usize) -> (read: Read<NavPoint>)
    requires
        at <= text@.len(),
    ensures
        match read {
            Ok((point, behind)) => grammar::read_nav_point(text@, at as int) == Ok::<
                (NavPointView, int),
                int,
            >((point@, behind as int)) && at < behind <= text@.len(),
            Err(e) => grammar::read_nav_point(text@, at as int) == Err::<
                (NavPointView, int),
                int,
            >(e as int) && at <= e <= text@.len(),
        },
{
    let a = match symbol(text, at, '(') {
        Ok(a) => a,
        Err(e) => {
            return Err(e);
        },
    };
    let (id, b) = match u16_member(text, a, "id") {
        Ok(read) => read,
        Err(e) => {
            return Err(e);
        },
    };
    let (x, c) = match u16_member(text, b, "x") {
        Ok(read) => read,
        Err(e) => {
            return Err(e);
        },
    };
    let (y, d) = match u16_member(text, c, "y") {
        Ok(read) => read,
        Err(e) => {
            return Err(e);
        },
    };
    let f = match label(text, d, "edges") {
        Ok(f) => f,
        Err(e) => {
            return Err(e);
        },
    };
    let (edges, g) = match read_edges(text, f) {
        Ok(read) => read,
        Err(e) => {
            return Err(e);
        },
    };
    match close_structure(text, g) {
        Ok(h) => Ok((NavPoint { id, x, y, edges }, h)),
        Err(e) => Err(e),
    }
}

/// The navigation graph: a list of nodes in square brackets.
pub(crate) fn read_nav_points(text: &Vec<char>, at: usize) -> (read: Read<Vec<NavPoint>>)
    requires
        at <= text@.len(),
    ensures
        match read {
            Ok((points, behind)) => grammar::sequence(
                text@,
                at as int,
                '[',
                ']',
                grammar::nav_point_reader(),
            ) == Ok::<(Seq<NavPointView>, int), int>((nav_points_view(points@), behind as int))
                && at < behind <= text@.len(),
            Err(e) => grammar::sequence(text@, at as int, '[', ']', grammar::nav_point_reader())
                == Err::<(Seq<NavPointView>, int), int>(e as int) && at <= e <= text@.len(),
        },
{
    let mut next = match symbol(text, at, '[') {
        Ok(after) => after,
        Err(e) => {
            return Err(e);
        },
    };
    let mut points: Vec<NavPoint> = Vec::new();
    assert(nav_points_view(points@) =~= Seq::empty());
    loop
        invariant
            at < next <= text@.len(),
            grammar::sequence(text@, at as int, '[', ']', grammar::nav_point_reader())
                == grammar::items_rest(
                text@,
                next as int,
                ']',
                grammar::nav_point_reader(),
                nav_points_view(points@),
            ),
        decreases text@.len() - next,
    {
        match symbol(text, next, ']') {
            Ok(after) => {
                return Ok((points, after));
            },
            Err(_) => {},
        }
        let (point, behind) = match read_nav_point(text, next) {
            Ok(read) => read,
            Err(e) => {
                return Err(e);
            },
        };
        assert(nav_points_view(points@.push(point)) =~= nav_points_view(points@).push(point@));
        match symbol(text, behind, ',') {
            Ok(after) => {
                points.push(point);
                next = after;
            },
            Err(_) => {
                match symbol(text, behind, ']') {
                    Ok(after) => {
                        points.push(point);
                        return Ok((points, after));
                    },
                    Err(e) => {
                        return Err(e);
                    },
                }
            },
        }
    }
}

// ---------------------------------------------------------------------
// The tile table
// ---------------------------------------------------------------------
/// One entry of the tile table: `(X,Y):N`.
pub(crate) fn read_entry(text: &Vec<char>, at: usize) -> (read: Read<TileEntry>)
    requires
        at <= text@.len(),
    ensures
        match read {
            Ok((entry, behind)) => grammar::read_entry(text@, at as int) == Ok::<
                (TileEntry, int),
                int,
            >((entry, behind as int)) && at < behind <= text@.len(),
            Err(e) => grammar::read_entry(text@, at as int) == Err::<(TileEntry, int), int>(
                e as int,
            ) && at <= e <= text@.len(),
        },
{
    let a = match symbol(text, at, '(') {
        Ok(a) => a,
        Err(e) => {
            return Err(e);
        },
    };
    let (x, b) = match read_u16(text, a) {
        Ok(read) => read,
        Err(e) => {
            return Err(e);
        },
    };
    let c = match symbol(text, b, ',') {
        Ok(c) => c,
        Err(e) => {
            return Err(e);
        },
    };
    let (y, d) = match read_u16(text, c) {
        Ok(read) => read,
        Err(e) => {
            return Err(e);
        },
    };
    let f = match symbol(text, d, ')') {
        Ok(f) => f,
        Err(e) => {
            return Err(e);
        },
    };
    let g = match symbol(text, f, ':') {
        Ok(g) => g,
        Err(e) => {
            return Err(e);
        },
    };
    match read_usize(text, g) {
        Ok((index, h)) => Ok((((x, y), index), h)),
        Err(e) => Err(e),
    }
}

/// What [`read_table`] has to return for what the grammar reads.
pub open spec fn same_table(
    got: Read<BTreeMap<(u16, u16), usize>>,
    want: Parsed<Seq<TileEntry>>,
) -> bool {
    match got {
        Ok((table, behind)) => want matches Ok((entries, end)) && end == behind && table@
            == grammar::table_of(entries),
        Err(e) => want == Err::<(Seq<TileEntry>, int), int>(e as int),
    }
}

/// The tile table: a list of entries in braces, gathered into a table in
/// which the last entry of a cell holds.
pub(crate) fn read_table(text: &Vec<char>, at: usize) -> (read: Read<BTreeMap<(u16, u16), usize>>)
    requires
        at <= text@.len(),
    ensures
        same_table(
            read,
            grammar::sequence(text@, at as int, '{', '}', grammar::entry_reader()),
        ),
        read matches Ok((_, behind)) ==> at < behind <= text@.len(),
        read matches Err(e) ==> at <= e <= text@.len(),
{
    let mut next = match symbol(text, at, '{') {
        Ok(after) => after,
        Err(e) => {
            return Err(e);
        },
    };
    let mut table: BTreeMap<(u16, u16), usize> = BTreeMap::new();
    let ghost mut entries: Seq<TileEntry> = Seq::empty();
    loop
        invariant
            at < next <= text@.len(),
            table@ == grammar::table_of(entries),
            grammar::sequence(text@, at as int, '{', '}', grammar::entry_reader())
                == grammar::items_rest(
                text@,
                next as int,
                '}',
                grammar::entry_reader(),
                entries,
            ),
        decreases text@.len() - next,
    {
        match symbol(text, next, '}') {
            Ok(after) => {
                return Ok((table, after));
            },
            Err(_) => {},
        }
        let (entry, behind) = match read_entry(text, next) {
            Ok(read) => read,
            Err(e) => {
                return Err(e);
            },
        };
        assert(entries.push(entry).drop_last() =~= entries);
        match symbol(text, behind, ',') {
            Ok(after) => {
                table.insert(entry.0, entry.1);
                proof {
                    entries = entries.push(entry);
                }
                next = after;
            },
            Err(_) => {
                match symbol(text, behind, '}') {
                    Ok(after) => {
                        table.insert(entry.0, entry.1);
                        return Ok((table, after));
                    },
                    Err(e) => {
                        return Err(e);
                    },
                }
            },
        }
    }
}

// ---------------------------------------------------------------------
// The map
// ---------------------------------------------------------------------
/// A map structure at `at`.
#[verifier::rlimit(40)]
pub(crate) fn read_map_at(text: &Vec<char>, at: usize) -> (read: Read<TileMap>)
    requires
        at <= text@.len(),
    ensures
        match read {
            Ok((map, behind)) => grammar::read_map_at(text@, at as int) == Ok::<
                (TileMapView, int),
                int,
            >((map@, behind as int)) && at < behind <= text@.len(),
            Err(e) => grammar::read_map_at(text@, at as int) == Err::<(TileMapView, int), int>(
                e as int,
            ) && at <= e <= text@.len(),
        },
{
    let a = match symbol(text, at, '(') {
        Ok(a) => a,
        Err(e) => {
            return Err(e);
        },
    };
    let (width, b) = match u16_member(text, a, "width") {
        Ok(read) => read,
        Err(e) => {
            return Err(e);
        },
    };
    let (height, c) = match u16_member(text, b, "height") {
        Ok(read) => read,
        Err(e) => {
            return Err(e);
        },
    };
    let c1 = match label(text, c, "sprites") {
        Ok(c1) => c1,
        Err(e) => {
            return Err(e);
        },
    };
    let (sprites, c2) = match read_definitions(text, c1) {
        Ok(read) => read,
        Err(e) => {
            return Err(e);
        },
    };
    let d = match symbol(text, c2, ',') {
        Ok(d) => d,
        Err(e) => {
            return Err(e);
        },
    };
    let d1 = match label(text, d, "tiles") {
        Ok(d1) => d1,
        Err(e) => {
            return Err(e);
        },
    };
    let (tiles, d2) = match read_table(text, d1) {
        Ok(read) => read,
        Err(e) => {
            return Err(e);
        },
    };
    let f = match symbol(text, d2, ',') {
        Ok(f) => f,
        Err(e) => {
            return Err(e);
        },
    };
    let f1 = match label(text, f, "default_tile") {
        Ok(f1) => f1,
        Err(e) => {
            return Err(e);
        },
    };
    let (default_tile, f2) = match read_usize(text, f1) {
        Ok(read) => read,
        Err(e) => {
            return Err(e);
        },
    };
    let g = match symbol(text, f2, ',') {
        Ok(g) => g,
        Err(e) => {
            return Err(e);
        },
    };
    let g1 = match label(text, g, "nav_points") {
        Ok(g1) => g1,
        Err(e) => {
            return Err(e);
        },
    };
    let (nav_points, g2) = match read_nav_points(text, g1) {
        Ok(read) => read,
        Err(e) => {
            return Err(e);
        },
    };
    match close_structure(text, g2) {
        Ok(h) => Ok((TileMap { width, height, sprites, tiles, default_tile, nav_points }, h)),
        Err(e) => Err(e),
    }
}

/// A whole text as a map: one map structure with nothing but blanks
/// before and behind it.
pub(crate) fn read_map(text: &Vec<char>) -> (read: Result<TileMap, usize>)
    ensures
        match read {
            Ok(map) => grammar::read_map(text@) == Ok::<TileMapView, int>(map@),
            Err(e) => grammar::read_map(text@) == Err::<TileMapView, int>(e as int) && e
                <= text@.len(),
        },
{
    match read_map_at(text, 0) {
        Ok((map, behind)) => {
            let end = skip_blank(text, behind);
            if end >= text.len() {
                Ok(map)
            } else {
                Err(end)
            }
        },
        Err(e) => Err(e),
    }
}

} // verus!
