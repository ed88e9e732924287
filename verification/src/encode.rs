//! Writing a map as text: an executable writer for each production of the
//! grammar, each proved to write exactly what the grammar says.

use crate::grammar;
use crate::grammar::{cell_rank, entries_below, ordered_entries, TileEntry};
use crate::roundtrip::lemma_cell_rank;
use crate::strings::push_char;
use crate::tilemap::{definitions_view, nav_points_view, NavPoint, TileDefinition, TileMap};
use std::collections::BTreeMap;
use vstd::prelude::*;
use vstd::std_specs::btree::{axiom_increasing_seq_meaning, increasing_seq};
use vstd::std_specs::cmp::OrdSpec;
use vstd::std_specs::iter::IteratorSpec;

verus! {

// ---------------------------------------------------------------------
// The order of the tile table
// ---------------------------------------------------------------------
/// `entries` holds the entries of `table`, each once, by rising rank of
/// their cells.
pub open spec fn is_ordered_listing(table: Map<(u16, u16), usize>, entries: Seq<TileEntry>) -> bool {
    &&& forall|i: int, j: int|
        0 <= i < j < entries.len() ==> cell_rank(#[trigger] entries[i].0) < cell_rank(
            #[trigger] entries[j].0,
        )
    &&& forall|i: int|
        0 <= i < entries.len() ==> table.contains_key(#[trigger] entries[i].0) && table[entries[i].0]
            == entries[i].1
    &&& forall|cell: (u16, u16)| #[trigger]
        table.contains_key(cell) ==> exists|i: int|
            0 <= i < entries.len() && #[trigger] entries[i].0 == cell
}

/// How many of `entries`, which rise in rank, lie below `bound`.
pub open spec fn count_below(entries: Seq<TileEntry>, bound: int) -> int
    decreases entries.len(),
{
    if entries.len() == 0 {
        0
    } else if cell_rank(entries.last().0) < bound {
        entries.len() as int
    } else {
        count_below(entries.drop_last(), bound)
    }
}

/// In a listing by rising rank, the entries below a bound are the first
/// `count_below` ones.
pub proof fn lemma_count_below(entries: Seq<TileEntry>, bound: int)
    requires
        forall|i: int, j: int|
            0 <= i < j < entries.len() ==> cell_rank(#[trigger] entries[i].0) < cell_rank(
                #[trigger] entries[j].0,
            ),
    ensures
        0 <= count_below(entries, bound) <= entries.len(),
        forall|i: int|
            0 <= i < count_below(entries, bound) ==> cell_rank(#[trigger] entries[i].0) < bound,
        forall|i: int|
            count_below(entries, bound) <= i < entries.len() ==> cell_rank(
                #[trigger] entries[i].0,
            ) >= bound,
    decreases entries.len(),
{
    if entries.len() == 0 {
    } else if cell_rank(entries.last().0) < bound {
        assert forall|i: int| 0 <= i < entries.len() implies cell_rank(#[trigger] entries[i].0)
            < bound by {
            if i < entries.len() - 1 {
                assert(cell_rank(entries[i].0) < cell_rank(entries[entries.len() - 1].0));
            }
        }
    } else {
        let shorter = entries.drop_last();
        assert forall|i: int, j: int| 0 <= i < j < shorter.len() implies cell_rank(
            #[trigger] shorter[i].0,
        ) < cell_rank(#[trigger] shorter[j].0) by {
            assert(shorter[i] == entries[i]);
            assert(shorter[j] == entries[j]);
        }
        lemma_count_below(shorter, bound);
        assert forall|i: int| 0 <= i < count_below(entries, bound) implies cell_rank(
            #[trigger] entries[i].0,
        ) < bound by {
            assert(shorter[i] == entries[i]);
        }
        assert forall|i: int| count_below(entries, bound) <= i < entries.len() implies cell_rank(
            #[trigger] entries[i].0,
        ) >= bound by {
            if i < shorter.len() {
                assert(shorter[i] == entries[i]);
            }
        }
    }
}

/// A listing by rising rank agrees with the written order up to any bound.
#[verifier::rlimit(40)]
pub proof fn lemma_listing_below(table: Map<(u16, u16), usize>, entries: Seq<TileEntry>, bound: nat)
    requires
        is_ordered_listing(table, entries),
        bound <= 0x1_0000_0000,
    ensures
        entries_below(table, bound) == entries.take(count_below(entries, bound as int)),
    decreases bound,
{
    lemma_count_below(entries, bound as int);
    let count = count_below(entries, bound as int);
    if bound == 0 {
        if count > 0 {
            lemma_cell_rank(entries[0].0);
        }
        assert(entries.take(0) =~= Seq::<TileEntry>::empty());
    } else {
        let cell = grammar::cell_of_rank(bound - 1);
        lemma_listing_below(table, entries, (bound - 1) as nat);
        lemma_count_below(entries, bound - 1);
        let before = count_below(entries, bound - 1);
        assert(cell_rank(cell) == bound - 1);
        assert forall|other: (u16, u16)| cell_rank(other) == bound - 1 implies other == cell by {
            lemma_cell_rank(other);
        }
        if table.contains_key(cell) {
            let i = choose|i: int| 0 <= i < entries.len() && #[trigger] entries[i].0 == cell;
            if before < i {
                assert(cell_rank(entries[before].0) < cell_rank(entries[i].0));
            }
            assert(before == i);
            if count > i + 1 {
                assert(cell_rank(entries[i].0) < cell_rank(entries[i + 1].0));
            }
            assert(count == i + 1);
            assert(entries.take(i + 1) =~= entries.take(i).push(entries[i]));
        } else {
            if before < count {
                assert(table.contains_key(entries[before].0));
                assert(cell_rank(entries[before].0) >= bound - 1);
                assert(cell_rank(entries[before].0) < bound);
                assert(entries[before].0 == cell);
            }
            if count < before {
                assert(cell_rank(entries[count].0) >= bound);
                assert(cell_rank(entries[count].0) < bound - 1);
            }
            assert(before == count);
        }
    }
}

/// A table has one listing by rising rank: the order in which it is
/// written.
pub proof fn lemma_listing_is_ordered(table: Map<(u16, u16), usize>, entries: Seq<TileEntry>)
    requires
        is_ordered_listing(table, entries),
    ensures
        entries == ordered_entries(table),
{
    lemma_listing_below(table, entries, 0x1_0000_0000);
    lemma_count_below(entries, 0x1_0000_0000);
    let count = count_below(entries, 0x1_0000_0000);
    if count < entries.len() {
        lemma_cell_rank(entries[count].0);
    }
    assert(entries.take(entries.len() as int) =~= entries);
}

/// Cells that rise in the order of pairs rise in rank.
pub proof fn lemma_rising_cells(cells: Seq<(u16, u16)>)
    requires
        increasing_seq(cells),
    ensures
        forall|i: int, j: int|
            0 <= i < j < cells.len() ==> cell_rank(#[trigger] cells[i]) < cell_rank(
                #[trigger] cells[j],
            ),
{
    axiom_increasing_seq_meaning(cells);
    assert forall|i: int, j: int| 0 <= i < j < cells.len() implies cell_rank(#[trigger] cells[i])
        < cell_rank(#[trigger] cells[j]) by {
        assert(cells[i].cmp_spec(&cells[j]) is Less);
    }
}

/// The entries of `tiles` in the order in which they are written.
#[verifier::loop_isolation(false)]
#[verifier::rlimit(40)]
pub(crate) fn ordered(tiles: &BTreeMap<(u16, u16), usize>) -> (entries: Vec<TileEntry>)
    ensures
        entries@ == ordered_entries(tiles@),
{
    let mut entries: Vec<TileEntry> = Vec::new();
    let walk = tiles.iter();
    let ghost all = walk.remaining();
    let ghost cells = all.map_values(|pair: (&(u16, u16), &usize)| *pair.0);
    proof {
        lemma_rising_cells(cells);
    }
    for pair in it: walk
        invariant
            it.seq() == all,
            entries@.len() == it.index(),
            forall|i: int|
                0 <= i < entries@.len() ==> (#[trigger] entries@[i]).0 == *all[i].0 && entries@[i].1
                    == *all[i].1,
    {
        let (cell, index) = pair;
        entries.push((*cell, *index));
    }
    proof {
        assert forall|i: int, j: int| 0 <= i < j < entries@.len() implies cell_rank(
            #[trigger] entries@[i].0,
        ) < cell_rank(#[trigger] entries@[j].0) by {
            assert(cells[i] == entries@[i].0);
            assert(cells[j] == entries@[j].0);
        }
        assert forall|cell: (u16, u16)| #[trigger] tiles@.contains_key(cell) implies exists|i: int|
            0 <= i < entries@.len() && #[trigger] entries@[i].0 == cell by {
            let pair = (&cell, &tiles@[cell]);
            assert(all.contains(pair));
            let i = choose|i: int| 0 <= i < all.len() && all[i] == pair;
            assert(entries@[i].0 == cell);
        }
        lemma_listing_is_ordered(tiles@, entries@);
    }
    entries
}

// ---------------------------------------------------------------------
// Numbers and strings
// ---------------------------------------------------------------------
/// The digit that denotes `digit`.
fn digit_char(digit: usize) -> (c: char)
    requires
        digit < 10,
    ensures
        c == grammar::digit_char(digit as int),
{
    (48u8 + digit as u8) as char
}

/// Appends the decimal digits of `n`.
pub(crate) fn write_decimal(out: &mut String, n: usize)
    ensures
        final(out)@ == old(out)@ + grammar::decimal(n as nat),
    decreases n,
{
    if n >= 10 {
        write_decimal(out, n / 10);
    }
    push_char(out, digit_char(n % 10));
    proof {
        if n >= 10 {
            assert(final(out)@ =~= old(out)@ + grammar::decimal(n as nat));
        } else {
            assert(final(out)@ =~= old(out)@ + grammar::decimal(n as nat));
        }
    }
}

/// Appends a signed 8-bit number.
pub(crate) fn write_i8(out: &mut String, n: i8)
    ensures
        final(out)@ == old(out)@ + grammar::signed_decimal(n as int),
{
    if n < 0 {
        push_char(out, '-');
        let magnitude: i16 = -(n as i16);
        write_decimal(out, magnitude as usize);
        assert(final(out)@ =~= old(out)@ + grammar::signed_decimal(n as int));
    } else {
        write_decimal(out, n as usize);
    }
}

/// Appends one character of a string as it is written between the quotes.
pub(crate) fn write_escaped(out: &mut String, c: char)
    ensures
        final(out)@ == old(out)@ + grammar::escape_char(c),
{
    if c == '"' {
        push_char(out, '\\');
        push_char(out, '"');
    } else if c == '\\' {
        push_char(out, '\\');
        push_char(out, '\\');
    } else if c == '\n' {
        push_char(out, '\\');
        push_char(out, 'n');
    } else if c == '\r' {
        push_char(out, '\\');
        push_char(out, 'r');
    } else if c == '\t' {
        push_char(out, '\\');
        push_char(out, 't');
    } else {
        push_char(out, c);
    }
    assert(final(out)@ =~= old(out)@ + grammar::escape_char(c));
}

/// Appends a string between double quotes.
pub(crate) fn write_quoted(out: &mut String, content: &str)
    ensures
        final(out)@ == old(out)@ + grammar::quote(content@),
{
    push_char(out, '"');
    let ghost opened = out@;
    for c in it: content.chars()
        invariant
            it.seq() == content@,
            out@ == opened + grammar::escaped(content@.take(it.index() as int)),
    {
        let ghost shorter = content@.take(it.index() as int);
        let ghost longer = content@.take(it.index() + 1);
        assert(longer.drop_last() =~= shorter);
        assert(longer.last() == c);
        write_escaped(out, c);
        assert(out@ =~= opened + grammar::escaped(longer));
    }
    assert(content@.take(content@.len() as int) =~= content@);
    push_char(out, '"');
    assert(final(out)@ =~= old(out)@ + grammar::quote(content@));
}

/// Appends the name of a member and its colon.
pub(crate) fn write_label(out: &mut String, name: &str)
    ensures
        final(out)@ == old(out)@ + name@ + seq![':'],
{
    out.append(name);
    push_char(out, ':');
    assert(final(out)@ =~= old(out)@ + name@ + seq![':']);
}

/// Appends a member that holds a number: its name, a colon, the digits.
pub(crate) fn write_number_member(out: &mut String, name: &str, value: usize)
    ensures
        final(out)@ == old(out)@ + grammar::member(name@, grammar::decimal(value as nat)),
{
    write_label(out, name);
    write_decimal(out, value);
    assert(final(out)@ =~= old(out)@ + grammar::member(name@, grammar::decimal(value as nat)));
}

/// Appends a comma.
pub(crate) fn write_comma(out: &mut String)
    ensures
        final(out)@ == old(out)@ + seq![','],
{
    push_char(out, ',');
    assert(final(out)@ =~= old(out)@ + seq![',']);
}

// ---------------------------------------------------------------------
// Lists
// ---------------------------------------------------------------------
/// Joining one item more appends a comma, unless it is the first item, and
/// the item.
pub proof fn lemma_joined_next(items: Seq<Seq<char>>, count: int)
    requires
        0 <= count < items.len(),
    ensures
        grammar::joined(items.take(count + 1)) == if count == 0 {
            items[count]
        } else {
            grammar::joined(items.take(count)) + seq![','] + items[count]
        },
{
    let longer = items.take(count + 1);
    assert(longer.drop_last() =~= items.take(count));
    assert(longer.last() == items[count]);
}

/// One catalog entry: `(path:"..",cost:N)`.
pub(crate) fn write_definition(out: &mut String, definition: &TileDefinition)
    ensures
        final(out)@ == old(out)@ + grammar::written_definition(definition@),
{
    let ghost path = grammar::member("path"@, grammar::quote(definition@.path));
    let ghost cost = grammar::member("cost"@, grammar::signed_decimal(definition.cost as int));
    push_char(out, '(');
    write_label(out, "path");
    write_quoted(out, definition.path.as_str());
    assert(out@ =~= old(out)@ + (seq!['('] + path));
    write_comma(out);
    write_label(out, "cost");
    write_i8(out, definition.cost);
    assert(out@ =~= old(out)@ + (seq!['('] + path + seq![','] + cost));
    push_char(out, ')');
    assert(final(out)@ =~= old(out)@ + (seq!['('] + path + seq![','] + cost + seq![')']));
}

/// The catalog: its entries in square brackets.
pub(crate) fn write_definitions(out: &mut String, sprites: &Vec<TileDefinition>)
    ensures
        final(out)@ == old(out)@ + grammar::written_sprites(definitions_view(sprites@)),
{
    let ghost items = grammar::written_definition_items(definitions_view(sprites@));
    push_char(out, '[');
    let ghost opened = out@;
    let mut next: usize = 0;
    while next < sprites.len()
        invariant
            next <= sprites@.len(),
            items == grammar::written_definition_items(definitions_view(sprites@)),
            out@ == opened + grammar::joined(items.take(next as int)),
        decreases sprites@.len() - next,
    {
        if next > 0 {
            push_char(out, ',');
        }
        write_definition(out, &sprites[next]);
        proof {
            lemma_joined_next(items, next as int);
            assert(out@ =~= opened + grammar::joined(items.take(next + 1)));
        }
        next += 1;
    }
    assert(items.take(next as int) =~= items);
    push_char(out, ']');
    assert(final(out)@ =~= old(out)@ + grammar::written_sprites(definitions_view(sprites@)));
}

/// The edges of a node: their ids in square brackets.
pub(crate) fn write_edges(out: &mut String, edges: &Vec<u16>)
    ensures
        final(out)@ == old(out)@ + grammar::written_edges(edges@),
{
    let ghost items = grammar::written_edge_items(edges@);
    push_char(out, '[');
    let ghost opened = out@;
    let mut next: usize = 0;
    while next < edges.len()
        invariant
            next <= edges@.len(),
            items == grammar::written_edge_items(edges@),
            out@ == opened + grammar::joined(items.take(next as int)),
        decreases edges@.len() - next,
    {
        if next > 0 {
            push_char(out, ',');
        }
        write_decimal(out, edges[next] as usize);
        proof {
            lemma_joined_next(items, next as int);
            assert(out@ =~= opened + grammar::joined(items.take(next + 1)));
        }
        next += 1;
    }
    assert(items.take(next as int) =~= items);
    push_char(out, ']');
    assert(final(out)@ =~= old(out)@ + grammar::written_edges(edges@));
}

/// One node of the navigation graph: `(id:N,x:N,y:N,edges:[N,..])`.
#[verifier::rlimit(40)]
pub(crate) fn write_nav_point(out: &mut String, point: &NavPoint)
    ensures
        final(out)@ == old(out)@ + grammar::written_nav_point(point@),
{
    let ghost id = grammar::member("id"@, grammar::decimal(point.id as nat));
    let ghost x = grammar::member("x"@, grammar::decimal(point.x as nat));
    let ghost y = grammar::member("y"@, grammar::decimal(point.y as nat));
    let ghost edges = grammar::member("edges"@, grammar::written_edges(point@.edges));
    push_char(out, '(');
    write_number_member(out, "id", point.id as usize);
    assert(out@ =~= old(out)@ + (seq!['('] + id));
    write_comma(out);
    write_number_member(out, "x", point.x as usize);
    assert(out@ =~= old(out)@ + (seq!['('] + id + seq![','] + x));
    write_comma(out);
    write_number_member(out, "y", point.y as usize);
    assert(out@ =~= old(out)@ + (seq!['('] + id + seq![','] + x + seq![','] + y));
    write_comma(out);
    write_label(out, "edges");
    write_edges(out, &point.edges);
    assert(out@ =~= old(out)@ + (seq!['('] + id + seq![','] + x + seq![','] + y + seq![',']
        + edges));
    push_char(out, ')');
    assert(final(out)@ =~= old(out)@ + (seq!['('] + id + seq![','] + x + seq![','] + y + seq![',']
        + edges + seq![')']));
}

/// The navigation graph: its nodes in square brackets.
pub(crate) fn write_nav_points(out: &mut String, points: &Vec<NavPoint>)
    ensures
        final(out)@ == old(out)@ + grammar::written_nav_points(nav_points_view(points@)),
{
    let ghost items = grammar::written_nav_point_items(nav_points_view(points@));
    push_char(out, '[');
    let ghost opened = out@;
    let mut next: usize = 0;
    while next < points.len()
        invariant
            next <= points@.len(),
            items == grammar::written_nav_point_items(nav_points_view(points@)),
            out@ == opened + grammar::joined(items.take(next as int)),
        decreases points@.len() - next,
    {
        if next > 0 {
            push_char(out, ',');
        }
        write_nav_point(out, &points[next]);
        proof {
            lemma_joined_next(items, next as int);
            assert(out@ =~= opened + grammar::joined(items.take(next + 1)));
        }
        next += 1;
    }
    assert(items.take(next as int) =~= items);
    push_char(out, ']');
    assert(final(out)@ =~= old(out)@ + grammar::written_nav_points(nav_points_view(points@)));
}

/// One entry of the tile table: `(X,Y):N`.
pub(crate) fn write_entry(out: &mut String, entry: &TileEntry)
    ensures
        final(out)@ == old(out)@ + grammar::written_entry(*entry),
{
    push_char(out, '(');
    write_decimal(out, entry.0.0 as usize);
    push_char(out, ',');
    write_decimal(out, entry.0.1 as usize);
    push_char(out, ')');
    push_char(out, ':');
    write_decimal(out, entry.1);
    assert(final(out)@ =~= old(out)@ + grammar::written_entry(*entry));
}

/// The tile table: its entries in braces, by rising rank of their cells.
pub(crate) fn write_table(out: &mut String, tiles: &BTreeMap<(u16, u16), usize>)
    ensures
        final(out)@ == old(out)@ + grammar::written_table(tiles@),
{
    let entries = ordered(tiles);
    let ghost items = grammar::written_entry_items(entries@);
    push_char(out, '{');
    let ghost opened = out@;
    let mut next: usize = 0;
    while next < entries.len()
        invariant
            next <= entries@.len(),
            items == grammar::written_entry_items(entries@),
            out@ == opened + grammar::joined(items.take(next as int)),
        decreases entries@.len() - next,
    {
        if next > 0 {
            push_char(out, ',');
        }
        write_entry(out, &entries[next]);
        proof {
            lemma_joined_next(items, next as int);
            assert(out@ =~= opened + grammar::joined(items.take(next + 1)));
        }
        next += 1;
    }
    assert(items.take(next as int) =~= items);
    push_char(out, '}');
    assert(final(out)@ =~= old(out)@ + grammar::written_table(tiles@));
}

// ---------------------------------------------------------------------
// The map
// ---------------------------------------------------------------------
/// A map as text.
#[verifier::rlimit(40)]
pub(crate) fn write_map(map: &TileMap) -> (text: String)
    ensures
        text@ == grammar::written_map(map@),
{
    let mut out = String::new();
    push_char(&mut out, '(');
    assert(out@ =~= seq!['(']);
    write_number_member(&mut out, "width", map.width as usize);
    write_comma(&mut out);
    write_number_member(&mut out, "height", map.height as usize);
    write_comma(&mut out);
    let ghost extents = out@;
    write_label(&mut out, "sprites");
    write_definitions(&mut out, &map.sprites);
    assert(out@ =~= extents + grammar::member(
        "sprites"@,
        grammar::written_sprites(map@.sprites),
    ));
    write_comma(&mut out);
    let ghost catalog = out@;
    write_label(&mut out, "tiles");
    write_table(&mut out, &map.tiles);
    assert(out@ =~= catalog + grammar::member("tiles"@, grammar::written_table(map@.tiles)));
    write_comma(&mut out);
    write_number_member(&mut out, "default_tile", map.default_tile);
    write_comma(&mut out);
    let ghost cells = out@;
    write_label(&mut out, "nav_points");
    write_nav_points(&mut out, &map.nav_points);
    assert(out@ =~= cells + grammar::member(
        "nav_points"@,
        grammar::written_nav_points(map@.nav_points),
    ));
    push_char(&mut out, ')');
    assert(out@ =~= cells + grammar::member(
        "nav_points"@,
        grammar::written_nav_points(map@.nav_points),
    ) + seq![')']);
    out
}

} // verus!
