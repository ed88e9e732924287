//! The text form of a tile map, as mathematics: what a map is written as
//! (`written_*`), and what a text is read as (`read_*`).
//!
//! A map is written as one parenthesised structure with named members, in
//! a fixed order and without blanks:
//!
//! ```text
//! (width:24,height:12,sprites:[(path:"floor.png",cost:1)],tiles:{(5,5):1},
//!  default_tile:0,nav_points:[(id:0,x:1,y:1,edges:[])])
//! ```
//!
//! Reading accepts the same with blanks (space, tab, line feed, carriage
//! return) between any two tokens and with a comma after the last member of
//! a structure and after the last item of a list or of the tile table.

use crate::error::DecodeError;
use crate::tilemap::{NavPointView, TileDefinitionView, TileMapView};
use vstd::prelude::*;

verus! {

/// What reading one construct at a position gives: the value and the
/// position behind it, or the position at which the text leaves the grammar.
pub type Parsed<T> = Result<(T, int), int>;

/// An entry of the tile table: the cell and its catalog index.
pub type TileEntry = ((u16, u16), usize);

// ---------------------------------------------------------------------
// Tokens
// ---------------------------------------------------------------------
/// A blank: space, tab, line feed or carriage return.
pub open spec fn is_blank(c: char) -> bool {
    c == ' ' || c == '\t' || c == '\n' || c == '\r'
}

/// A decimal digit.
pub open spec fn is_digit(c: char) -> bool {
    '0' <= c <= '9'
}

/// The first position from `at` on that holds no blank.
pub open spec fn skip_blank(text: Seq<char>, at: int) -> int
    decreases text.len() - at,
{
    if 0 <= at < text.len() && is_blank(text[at]) {
        skip_blank(text, at + 1)
    } else {
        at
    }
}

/// Skipping blanks never goes back, and stays within the text.
pub proof fn lemma_skip_blank_bounds(text: Seq<char>, at: int)
    ensures
        at <= skip_blank(text, at),
        at <= text.len() ==> skip_blank(text, at) <= text.len(),
        0 <= skip_blank(text, at) < text.len() ==> !is_blank(text[skip_blank(text, at)]),
    decreases text.len() - at,
{
    if 0 <= at < text.len() && is_blank(text[at]) {
        lemma_skip_blank_bounds(text, at + 1);
    }
}

/// `text` holds `word` at `at`.
pub open spec fn has_word(text: Seq<char>, at: int, word: Seq<char>) -> bool {
    &&& 0 <= at
    &&& at + word.len() <= text.len()
    &&& forall|k: int| 0 <= k < word.len() ==> text[at + k] == #[trigger] word[k]
}

/// Blanks, then the character `c`.
pub open spec fn symbol(text: Seq<char>, at: int, c: char) -> Result<int, int> {
    let start = skip_blank(text, at);
    if 0 <= start < text.len() && text[start] == c {
        Ok(start + 1)
    } else {
        Err(start)
    }
}

/// Blanks, the member name `name`, blanks, a colon.
pub open spec fn label(text: Seq<char>, at: int, name: Seq<char>) -> Result<int, int> {
    let start = skip_blank(text, at);
    if has_word(text, start, name) {
        symbol(text, start + name.len(), ':')
    } else {
        Err(start)
    }
}

/// The end of a structure: an optional comma, then the closing parenthesis.
pub open spec fn close_structure(text: Seq<char>, at: int) -> Result<int, int> {
    match symbol(text, at, ',') {
        Ok(after) => symbol(text, after, ')'),
        Err(_) => symbol(text, at, ')'),
    }
}

// ---------------------------------------------------------------------
// Numbers
// ---------------------------------------------------------------------
/// The number that the digit `c` denotes.
pub open spec fn digit_value(c: char) -> int {
    c as int - '0' as int
}

/// The digit that denotes `d`, for `d` from 0 to 9.
pub open spec fn digit_char(d: int) -> char {
    ('0' as int + d) as char
}

/// The first position from `at` on that holds no decimal digit.
pub open spec fn digits_end(text: Seq<char>, at: int) -> int
    decreases text.len() - at,
{
    if 0 <= at < text.len() && is_digit(text[at]) {
        digits_end(text, at + 1)
    } else {
        at
    }
}

/// The number that a run of decimal digits denotes.
pub open spec fn digits_value(digits: Seq<char>) -> nat
    decreases digits.len(),
{
    if digits.len() == 0 {
        0
    } else {
        (digits_value(digits.drop_last()) * 10 + digit_value(digits.last())) as nat
    }
}

/// Blanks, then a run of at least one decimal digit that denotes a number
/// of at most `max`. Leading zeros are accepted.
pub open spec fn number(text: Seq<char>, at: int, max: int) -> Parsed<int> {
    let start = skip_blank(text, at);
    let end = digits_end(text, start);
    let value = digits_value(text.subrange(start, end));
    if start < end && value <= max {
        Ok((value as int, end))
    } else {
        Err(start)
    }
}

/// Blanks, an optional minus sign, then digits as in [`number`]; the value
/// lies in `min ..= max`, where `min <= 0 <= max`.
pub open spec fn signed(text: Seq<char>, at: int, min: int, max: int) -> Parsed<int> {
    let start = skip_blank(text, at);
    if 0 <= start < text.len() && text[start] == '-' {
        let end = digits_end(text, start + 1);
        let value = digits_value(text.subrange(start + 1, end));
        if start + 1 < end && -value >= min {
            Ok((-value, end))
        } else {
            Err(start)
        }
    } else {
        number(text, start, max)
    }
}

/// The decimal digits of `n`, without leading zeros.
pub open spec fn decimal(n: nat) -> Seq<char>
    decreases n,
{
    if n < 10 {
        seq![digit_char(n as int)]
    } else {
        decimal(n / 10).push(digit_char((n % 10) as int))
    }
}

/// A signed number as written: a minus sign before the digits of a
/// negative one.
pub open spec fn signed_decimal(n: int) -> Seq<char> {
    if n < 0 {
        seq!['-'] + decimal((-n) as nat)
    } else {
        decimal(n as nat)
    }
}

// ---------------------------------------------------------------------
// Strings
// ---------------------------------------------------------------------
/// How one character of a string is written between the quotes.
pub open spec fn escape_char(c: char) -> Seq<char> {
    if c == '"' {
        seq!['\\', '"']
    } else if c == '\\' {
        seq!['\\', '\\']
    } else if c == '\n' {
        seq!['\\', 'n']
    } else if c == '\r' {
        seq!['\\', 'r']
    } else if c == '\t' {
        seq!['\\', 't']
    } else {
        seq![c]
    }
}

/// The character that a backslash followed by `c` stands for, if any.
pub open spec fn unescape(c: char) -> Option<char> {
    if c == '"' {
        Some('"')
    } else if c == '\\' {
        Some('\\')
    } else if c == 'n' {
        Some('\n')
    } else if c == 'r' {
        Some('\r')
    } else if c == 't' {
        Some('\t')
    } else if c == '\'' {
        Some('\'')
    } else if c == '0' {
        Some('\0')
    } else {
        None
    }
}

/// The characters of a string as written between the quotes.
pub open spec fn escaped(content: Seq<char>) -> Seq<char>
    decreases content.len(),
{
    if content.len() == 0 {
        Seq::empty()
    } else {
        escaped(content.drop_last()) + escape_char(content.last())
    }
}

/// A string as written: its escaped characters between double quotes.
pub open spec fn quote(content: Seq<char>) -> Seq<char> {
    seq!['"'] + escaped(content) + seq!['"']
}

/// The rest of a string from `at` on, behind the characters `before`: up
/// to the closing quote, with each escape replaced by what it stands for.
pub open spec fn string_rest(text: Seq<char>, at: int, before: Seq<char>) -> Parsed<Seq<char>>
    decreases text.len() - at,
{
    if !(0 <= at < text.len()) {
        Err(at)
    } else if text[at] == '"' {
        Ok((before, at + 1))
    } else if text[at] == '\\' {
        if at + 1 < text.len() && unescape(text[at + 1]) is Some {
            string_rest(text, at + 2, before.push(unescape(text[at + 1])->0))
        } else {
            Err(at)
        }
    } else {
        string_rest(text, at + 1, before.push(text[at]))
    }
}

/// Blanks, then a string between double quotes.
pub open spec fn quoted(text: Seq<char>, at: int) -> Parsed<Seq<char>> {
    match symbol(text, at, '"') {
        Ok(after) => string_rest(text, after, Seq::empty()),
        Err(e) => Err(e),
    }
}

// ---------------------------------------------------------------------
// Lists
// ---------------------------------------------------------------------
/// The items of a list from `at` on, behind the items `before`: either the
/// closing character, or an item followed by a comma and more of the same,
/// or an item followed by the closing character.
pub open spec fn items_rest<T>(
    text: Seq<char>,
    at: int,
    close: char,
    item: spec_fn(Seq<char>, int) -> Parsed<T>,
    before: Seq<T>,
) -> Parsed<Seq<T>>
    decreases text.len() - at,
{
    match symbol(text, at, close) {
        Ok(after) => Ok((before, after)),
        Err(_) => match item(text, at) {
            Err(e) => Err(e),
            Ok((value, behind)) => if behind <= at {
                Err(at)
            } else {
                match symbol(text, behind, ',') {
                    Ok(after) => {
                        proof {
                            lemma_skip_blank_bounds(text, behind);
                        }
                        items_rest(text, after, close, item, before.push(value))
                    },
                    Err(_) => match symbol(text, behind, close) {
                        Ok(after) => Ok((before.push(value), after)),
                        Err(e) => Err(e),
                    },
                }
            },
        },
    }
}

/// Blanks, the opening character, then items up to the closing character.
pub open spec fn sequence<T>(
    text: Seq<char>,
    at: int,
    open: char,
    close: char,
    item: spec_fn(Seq<char>, int) -> Parsed<T>,
) -> Parsed<Seq<T>> {
    match symbol(text, at, open) {
        Ok(after) => items_rest(text, after, close, item, Seq::empty()),
        Err(e) => Err(e),
    }
}

/// Items as written one after the other, with a comma between two.
pub open spec fn joined(items: Seq<Seq<char>>) -> Seq<char>
    decreases items.len(),
{
    if items.len() == 0 {
        Seq::empty()
    } else if items.len() == 1 {
        items[0]
    } else {
        joined(items.drop_last()) + seq![','] + items.last()
    }
}

/// A member of a structure as written: its name, a colon, its value.
pub open spec fn member(name: Seq<char>, value: Seq<char>) -> Seq<char> {
    name + seq![':'] + value
}

/// Items as written between an opening and a closing character.
pub open spec fn enclosed(open: char, items: Seq<Seq<char>>, close: char) -> Seq<char> {
    seq![open] + joined(items) + seq![close]
}

// ---------------------------------------------------------------------
// The members of a map
// ---------------------------------------------------------------------
/// Blanks, then a number of at most 65535.
pub open spec fn read_u16(text: Seq<char>, at: int) -> Parsed<u16> {
    match number(text, at, 0xffff) {
        Ok((value, behind)) => Ok((value as u16, behind)),
        Err(e) => Err(e),
    }
}

/// Blanks, then a number that a `usize` holds.
pub open spec fn read_usize(text: Seq<char>, at: int) -> Parsed<usize> {
    match number(text, at, usize::MAX as int) {
        Ok((value, behind)) => Ok((value as usize, behind)),
        Err(e) => Err(e),
    }
}

/// Blanks, then a signed number from -128 to 127.
pub open spec fn read_i8(text: Seq<char>, at: int) -> Parsed<i8> {
    match signed(text, at, -128, 127) {
        Ok((value, behind)) => Ok((value as i8, behind)),
        Err(e) => Err(e),
    }
}

/// [`read_u16`] as the reader of a list's items.
pub open spec fn u16_reader() -> spec_fn(Seq<char>, int) -> Parsed<u16> {
    |text: Seq<char>, at: int| read_u16(text, at)
}

/// A member that holds a 16-bit number and is followed by another member:
/// the name, a colon, the number, a comma.
pub open spec fn u16_member(text: Seq<char>, at: int, name: Seq<char>) -> Parsed<u16> {
    match label(text, at, name) {
        Err(e) => Err(e),
        Ok(a) => match read_u16(text, a) {
            Err(e) => Err(e),
            Ok((value, b)) => match symbol(text, b, ',') {
                Err(e) => Err(e),
                Ok(c) => Ok((value, c)),
            },
        },
    }
}

/// A member that holds a list and is followed by another member: the name,
/// a colon, the list between `open` and `close`, a comma.
pub open spec fn list_member<T>(
    text: Seq<char>,
    at: int,
    name: Seq<char>,
    open: char,
    close: char,
    item: spec_fn(Seq<char>, int) -> Parsed<T>,
) -> Parsed<Seq<T>> {
    match label(text, at, name) {
        Err(e) => Err(e),
        Ok(a) => match sequence(text, a, open, close, item) {
            Err(e) => Err(e),
            Ok((items, b)) => match symbol(text, b, ',') {
                Err(e) => Err(e),
                Ok(c) => Ok((items, c)),
            },
        },
    }
}

/// A member that holds a machine-sized number and is followed by another
/// member: the name, a colon, the number, a comma.
pub open spec fn usize_member(text: Seq<char>, at: int, name: Seq<char>) -> Parsed<usize> {
    match label(text, at, name) {
        Err(e) => Err(e),
        Ok(a) => match read_usize(text, a) {
            Err(e) => Err(e),
            Ok((value, b)) => match symbol(text, b, ',') {
                Err(e) => Err(e),
                Ok(c) => Ok((value, c)),
            },
        },
    }
}

/// A member that holds a string and is followed by another member: the
/// name, a colon, the string, a comma.
pub open spec fn string_member(text: Seq<char>, at: int, name: Seq<char>) -> Parsed<Seq<char>> {
    match label(text, at, name) {
        Err(e) => Err(e),
        Ok(a) => match quoted(text, a) {
            Err(e) => Err(e),
            Ok((value, b)) => match symbol(text, b, ',') {
                Err(e) => Err(e),
                Ok(c) => Ok((value, c)),
            },
        },
    }
}

/// The last member of a structure, holding a signed 8-bit number: the
/// name, a colon, the number, the end of the structure.
pub open spec fn closing_i8_member(text: Seq<char>, at: int, name: Seq<char>) -> Parsed<i8> {
    match label(text, at, name) {
        Err(e) => Err(e),
        Ok(a) => match read_i8(text, a) {
            Err(e) => Err(e),
            Ok((value, b)) => match close_structure(text, b) {
                Err(e) => Err(e),
                Ok(c) => Ok((value, c)),
            },
        },
    }
}

/// The last member of a structure, holding a list in square brackets: the
/// name, a colon, the list, the end of the structure.
pub open spec fn closing_list_member<T>(
    text: Seq<char>,
    at: int,
    name: Seq<char>,
    item: spec_fn(Seq<char>, int) -> Parsed<T>,
) -> Parsed<Seq<T>> {
    match label(text, at, name) {
        Err(e) => Err(e),
        Ok(a) => match sequence(text, a, '[', ']', item) {
            Err(e) => Err(e),
            Ok((items, b)) => match close_structure(text, b) {
                Err(e) => Err(e),
                Ok(c) => Ok((items, c)),
            },
        },
    }
}

/// One catalog entry: `(path:"..",cost:N)`.
pub open spec fn read_definition(text: Seq<char>, at: int) -> Parsed<TileDefinitionView> {
    match symbol(text, at, '(') {
        Err(e) => Err(e),
        Ok(a) => match string_member(text, a, "path"@) {
            Err(e) => Err(e),
            Ok((path, b)) => match closing_i8_member(text, b, "cost"@) {
                Err(e) => Err(e),
                Ok((cost, c)) => Ok((TileDefinitionView { path, cost }, c)),
            },
        },
    }
}

/// [`read_definition`] as the reader of a list's items.
pub open spec fn definition_reader() -> spec_fn(Seq<char>, int) -> Parsed<TileDefinitionView> {
    |text: Seq<char>, at: int| read_definition(text, at)
}

/// A catalog entry as written.
pub open spec fn written_definition(definition: TileDefinitionView) -> Seq<char> {
    seq!['('] + member("path"@, quote(definition.path)) + seq![','] + member(
        "cost"@,
        signed_decimal(definition.cost as int),
    ) + seq![')']
}

/// One node of the navigation graph: `(id:N,x:N,y:N,edges:[N,..])`.
pub open spec fn read_nav_point(text: Seq<char>, at: int) -> Parsed<NavPointView> {
    match symbol(text, at, '(') {
        Err(e) => Err(e),
        Ok(a) => match u16_member(text, a, "id"@) {
            Err(e) => Err(e),
            Ok((id, b)) => match u16_member(text, b, "x"@) {
                Err(e) => Err(e),
                Ok((x, c)) => match u16_member(text, c, "y"@) {
                    Err(e) => Err(e),
                    Ok((y, d)) => match closing_list_member(text, d, "edges"@, u16_reader()) {
                        Err(e) => Err(e),
                        Ok((edges, f)) => Ok((NavPointView { id, x, y, edges }, f)),
                    },
                },
            },
        },
    }
}

/// [`read_nav_point`] as the reader of a list's items.
pub open spec fn nav_point_reader() -> spec_fn(Seq<char>, int) -> Parsed<NavPointView> {
    |text: Seq<char>, at: int| read_nav_point(text, at)
}

/// Each edge as written.
pub open spec fn written_edge_items(edges: Seq<u16>) -> Seq<Seq<char>> {
    Seq::new(edges.len(), |j: int| decimal(edges[j] as nat))
}

/// The edges of a node as written: their ids in square brackets.
pub open spec fn written_edges(edges: Seq<u16>) -> Seq<char> {
    enclosed('[', written_edge_items(edges), ']')
}

/// A node of the navigation graph as written.
pub open spec fn written_nav_point(point: NavPointView) -> Seq<char> {
    seq!['('] + member("id"@, decimal(point.id as nat)) + seq![','] + member(
        "x"@,
        decimal(point.x as nat),
    ) + seq![','] + member("y"@, decimal(point.y as nat)) + seq![','] + member(
        "edges"@,
        written_edges(point.edges),
    ) + seq![')']
}

/// One entry of the tile table: `(X,Y):N`.
pub open spec fn read_entry(text: Seq<char>, at: int) -> Parsed<TileEntry> {
    match symbol(text, at, '(') {
        Err(e) => Err(e),
        Ok(a) => match read_u16(text, a) {
            Err(e) => Err(e),
            Ok((x, b)) => match symbol(text, b, ',') {
                Err(e) => Err(e),
                Ok(c) => match read_u16(text, c) {
                    Err(e) => Err(e),
                    Ok((y, d)) => match symbol(text, d, ')') {
                        Err(e) => Err(e),
                        Ok(f) => match symbol(text, f, ':') {
                            Err(e) => Err(e),
                            Ok(g) => match read_usize(text, g) {
                                Err(e) => Err(e),
                                Ok((index, h)) => Ok((((x, y), index), h)),
                            },
                        },
                    },
                },
            },
        },
    }
}

/// [`read_entry`] as the reader of a list's items.
pub open spec fn entry_reader() -> spec_fn(Seq<char>, int) -> Parsed<TileEntry> {
    |text: Seq<char>, at: int| read_entry(text, at)
}

/// An entry of the tile table as written.
pub open spec fn written_entry(entry: TileEntry) -> Seq<char> {
    seq!['('] + decimal(entry.0.0 as nat) + seq![','] + decimal(entry.0.1 as nat) + seq![')', ':']
        + decimal(entry.1 as nat)
}

// ---------------------------------------------------------------------
// The tile table
// ---------------------------------------------------------------------
/// The table that a list of entries stands for. Where a cell occurs more
/// than once, its last entry holds.
pub open spec fn table_of(entries: Seq<TileEntry>) -> Map<(u16, u16), usize>
    decreases entries.len(),
{
    if entries.len() == 0 {
        Map::empty()
    } else {
        table_of(entries.drop_last()).insert(entries.last().0, entries.last().1)
    }
}

/// The place of a cell in the order in which a table is written: by `x`,
/// and by `y` among cells of one `x`.
pub open spec fn cell_rank(cell: (u16, u16)) -> int {
    cell.0 * 0x1_0000 + cell.1
}

/// The cell of a given rank.
pub open spec fn cell_of_rank(rank: int) -> (u16, u16) {
    ((rank / 0x1_0000) as u16, (rank % 0x1_0000) as u16)
}

/// The entries of `table` whose cells have a rank below `bound`, by rising
/// rank.
pub open spec fn entries_below(table: Map<(u16, u16), usize>, bound: nat) -> Seq<TileEntry>
    decreases bound,
{
    if bound == 0 {
        Seq::empty()
    } else {
        let cell = cell_of_rank(bound - 1);
        let before = entries_below(table, (bound - 1) as nat);
        if table.contains_key(cell) {
            before.push((cell, table[cell]))
        } else {
            before
        }
    }
}

/// All entries of `table`, by rising rank of their cells: the order in
/// which the table is written, whatever order it was filled in.
pub open spec fn ordered_entries(table: Map<(u16, u16), usize>) -> Seq<TileEntry> {
    entries_below(table, 0x1_0000_0000)
}

/// Each entry as written.
pub open spec fn written_entry_items(entries: Seq<TileEntry>) -> Seq<Seq<char>> {
    Seq::new(entries.len(), |j: int| written_entry(entries[j]))
}

/// The tile table as written: its entries in braces, by rising rank of
/// their cells.
pub open spec fn written_table(table: Map<(u16, u16), usize>) -> Seq<char> {
    enclosed('{', written_entry_items(ordered_entries(table)), '}')
}

// ---------------------------------------------------------------------
// The map
// ---------------------------------------------------------------------
/// Each catalog entry as written.
pub open spec fn written_definition_items(sprites: Seq<TileDefinitionView>) -> Seq<Seq<char>> {
    Seq::new(sprites.len(), |j: int| written_definition(sprites[j]))
}

/// The catalog as written: its entries in square brackets.
pub open spec fn written_sprites(sprites: Seq<TileDefinitionView>) -> Seq<char> {
    enclosed('[', written_definition_items(sprites), ']')
}

/// Each node as written.
pub open spec fn written_nav_point_items(points: Seq<NavPointView>) -> Seq<Seq<char>> {
    Seq::new(points.len(), |j: int| written_nav_point(points[j]))
}

/// The navigation graph as written: its nodes in square brackets.
pub open spec fn written_nav_points(points: Seq<NavPointView>) -> Seq<char> {
    enclosed('[', written_nav_point_items(points), ']')
}

/// A map as text.
pub open spec fn written_map(map: TileMapView) -> Seq<char> {
    seq!['('] + member("width"@, decimal(map.width as nat)) + seq![','] + member(
        "height"@,
        decimal(map.height as nat),
    ) + seq![','] + member("sprites"@, written_sprites(map.sprites)) + seq![','] + member(
        "tiles"@,
        written_table(map.tiles),
    ) + seq![','] + member("default_tile"@, decimal(map.default_tile as nat)) + seq![',']
        + member("nav_points"@, written_nav_points(map.nav_points)) + seq![')']
}

/// A map structure at `at`.
pub open spec fn read_map_at(text: Seq<char>, at: int) -> Parsed<TileMapView> {
    match symbol(text, at, '(') {
        Err(e) => Err(e),
        Ok(a) => match u16_member(text, a, "width"@) {
            Err(e) => Err(e),
            Ok((width, b)) => match u16_member(text, b, "height"@) {
                Err(e) => Err(e),
                Ok((height, c)) => match list_member(
                    text,
                    c,
                    "sprites"@,
                    '[',
                    ']',
                    definition_reader(),
                ) {
                    Err(e) => Err(e),
                    Ok((sprites, d)) => match list_member(
                        text,
                        d,
                        "tiles"@,
                        '{',
                        '}',
                        entry_reader(),
                    ) {
                        Err(e) => Err(e),
                        Ok((entries, f)) => match usize_member(text, f, "default_tile"@) {
                            Err(e) => Err(e),
                            Ok((default_tile, g)) => match closing_list_member(
                                text,
                                g,
                                "nav_points"@,
                                nav_point_reader(),
                            ) {
                                Err(e) => Err(e),
                                Ok((nav_points, h)) => Ok(
                                    (
                                        TileMapView {
                                            width,
                                            height,
                                            sprites,
                                            tiles: table_of(entries),
                                            default_tile,
                                            nav_points,
                                        },
                                        h,
                                    ),
                                ),
                            },
                        },
                    },
                },
            },
        },
    }
}

/// A whole text as a map: one map structure, with nothing but blanks
/// before and behind it. The error is the position, counted in characters,
/// at which the text leaves the grammar.
pub open spec fn read_map(text: Seq<char>) -> Result<TileMapView, int> {
    match read_map_at(text, 0) {
        Err(e) => Err(e),
        Ok((map, behind)) => {
            let end = skip_blank(text, behind);
            if end >= text.len() {
                Ok(map)
            } else {
                Err(end)
            }
        },
    }
}

/// What a text decodes to: the map that it is read as, or the error that
/// carries the position at which it leaves the grammar.
pub open spec fn decoded(text: Seq<char>) -> Result<TileMapView, DecodeError> {
    match read_map(text) {
        Ok(map) => Ok(map),
        Err(at) => Err(DecodeError::Malformed { offset: at as usize }),
    }
}

/// What a run of bytes decodes to: what its text decodes to, if it is
/// well-formed UTF-8.
pub open spec fn decoded_bytes(bytes: Seq<u8>) -> Result<TileMapView, DecodeError> {
    if vstd::utf8::valid_utf8(bytes) {
        decoded(vstd::utf8::decode_utf8(bytes))
    } else {
        Err(DecodeError::InvalidUtf8)
    }
}

} // verus!
