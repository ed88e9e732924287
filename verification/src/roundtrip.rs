//! Reading what was written gives back what was written: the proofs that
//! relate the two halves of the text form.

use crate::error::DecodeError;
use crate::grammar::{
    cell_of_rank, cell_rank, close_structure, closing_i8_member, closing_list_member, decimal,
    decoded, definition_reader, digits_end, digits_value, enclosed, entries_below, entry_reader,
    escape_char, escaped, has_word, is_blank, is_digit, items_rest, joined, label, list_member,
    member, nav_point_reader, number, ordered_entries, quote, quoted, read_definition,
    read_entry, read_map, read_map_at, read_nav_point, read_u16, read_usize, sequence, signed,
    signed_decimal, skip_blank, string_member, string_rest, symbol, table_of, u16_member,
    u16_reader, usize_member, written_definition, written_definition_items, written_edge_items,
    written_edges, written_entry, written_entry_items, written_map, written_nav_point,
    written_nav_point_items, written_nav_points, written_sprites, written_table, Parsed,
    TileEntry,
};
use crate::tilemap::{NavPointView, TileDefinitionView, TileMapView};
use vstd::prelude::*;

verus! {

// ---------------------------------------------------------------------
// Words and tokens
// ---------------------------------------------------------------------
/// A text that holds `first + second` holds `first`, and `second` behind it.
pub proof fn lemma_word_split(text: Seq<char>, at: int, first: Seq<char>, second: Seq<char>)
    requires
        has_word(text, at, first + second),
    ensures
        has_word(text, at, first),
        has_word(text, at + first.len(), second),
{
    let whole = first + second;
    assert forall|k: int| 0 <= k < first.len() implies text[at + k] == #[trigger] first[k] by {
        assert(whole[k] == first[k]);
    }
    assert forall|k: int| 0 <= k < second.len() implies text[at + first.len() + k]
        == #[trigger] second[k] by {
        assert(whole[first.len() + k] == second[k]);
    }
}

/// No blank is skipped where the text holds a character that is none.
pub proof fn lemma_no_blank(text: Seq<char>, at: int)
    requires
        0 <= at < text.len() ==> !is_blank(text[at]),
    ensures
        skip_blank(text, at) == at,
{
}

/// A symbol is read where it stands.
pub proof fn lemma_reads_symbol(text: Seq<char>, at: int, c: char, rest: Seq<char>)
    requires
        has_word(text, at, seq![c] + rest),
        !is_blank(c),
    ensures
        symbol(text, at, c) == Ok::<int, int>(at + 1),
        has_word(text, at + 1, rest),
{
    lemma_word_split(text, at, seq![c], rest);
    assert(seq![c][0] == c);
    assert(text[at + 0] == c);
}

/// A label is read where its name and colon stand.
pub proof fn lemma_reads_label(text: Seq<char>, at: int, name: Seq<char>, rest: Seq<char>)
    requires
        has_word(text, at, name + seq![':'] + rest),
        name.len() > 0,
        !is_blank(name[0]),
    ensures
        label(text, at, name) == Ok::<int, int>(at + name.len() + 1),
        has_word(text, at + name.len() + 1, rest),
{
    lemma_word_split(text, at, name + seq![':'], rest);
    lemma_word_split(text, at, name, seq![':']);
    assert(text[at + 0] == name[0]);
    assert(seq![':'][0] == ':');
    assert(text[at + name.len() + 0] == ':');
}

// ---------------------------------------------------------------------
// Numbers
// ---------------------------------------------------------------------
/// The digits of `n` are digits, at least one, and denote `n`.
pub proof fn lemma_decimal(n: nat)
    ensures
        decimal(n).len() >= 1,
        forall|k: int| 0 <= k < decimal(n).len() ==> is_digit(#[trigger] decimal(n)[k]),
        digits_value(decimal(n)) == n,
    decreases n,
{
    if n < 10 {
        assert(decimal(n).drop_last() =~= Seq::<char>::empty());
        assert(digits_value(decimal(n).drop_last()) == 0);
    } else {
        lemma_decimal(n / 10);
        assert(decimal(n).drop_last() =~= decimal(n / 10));
    }
}

/// A run of digits ends where the first other character stands.
pub proof fn lemma_digits_end(text: Seq<char>, at: int, count: int)
    requires
        0 <= at,
        0 <= count,
        at + count <= text.len(),
        forall|k: int| 0 <= k < count ==> is_digit(#[trigger] text[at + k]),
        at + count < text.len() ==> !is_digit(text[at + count]),
    ensures
        digits_end(text, at) == at + count,
    decreases count,
{
    if count > 0 {
        assert(is_digit(text[at + 0]));
        assert forall|k: int| 0 <= k < count - 1 implies is_digit(#[trigger] text[at + 1 + k]) by {
            assert(is_digit(text[at + (k + 1)]));
        }
        lemma_digits_end(text, at + 1, count - 1);
    }
}

/// The digits of `n`, where no further digit follows them, are read as `n`.
pub proof fn lemma_reads_digits(text: Seq<char>, at: int, n: nat)
    requires
        has_word(text, at, decimal(n)),
        at + decimal(n).len() < text.len() ==> !is_digit(text[at + decimal(n).len()]),
    ensures
        digits_end(text, at) == at + decimal(n).len(),
        at < digits_end(text, at),
        digits_value(text.subrange(at, digits_end(text, at))) == n,
        !is_blank(text[at]),
{
    lemma_decimal(n);
    let digits = decimal(n);
    assert forall|k: int| 0 <= k < digits.len() implies is_digit(#[trigger] text[at + k]) by {
        assert(text[at + k] == digits[k]);
    }
    lemma_digits_end(text, at, digits.len() as int);
    assert(text.subrange(at, at + digits.len()) =~= digits);
    assert(is_digit(text[at + 0]));
}

/// A number is read where its digits stand, if no further digit follows.
pub proof fn lemma_reads_number(text: Seq<char>, at: int, n: nat, max: int)
    requires
        has_word(text, at, decimal(n)),
        at + decimal(n).len() < text.len() ==> !is_digit(text[at + decimal(n).len()]),
        n <= max,
    ensures
        number(text, at, max) == Ok::<(int, int), int>((n as int, at + decimal(n).len())),
{
    lemma_reads_digits(text, at, n);
    lemma_no_blank(text, at);
}

/// A signed number is read where its sign and digits stand, if no further
/// digit follows.
pub proof fn lemma_reads_signed(text: Seq<char>, at: int, n: int, min: int, max: int)
    requires
        has_word(text, at, signed_decimal(n)),
        at + signed_decimal(n).len() < text.len() ==> !is_digit(
            text[at + signed_decimal(n).len()],
        ),
        min <= n <= max,
    ensures
        signed(text, at, min, max) == Ok::<(int, int), int>((n, at + signed_decimal(n).len())),
{
    if n < 0 {
        let digits = decimal((-n) as nat);
        lemma_word_split(text, at, seq!['-'], digits);
        assert(seq!['-'][0] == '-');
        assert(text[at + 0] == '-');
        lemma_reads_digits(text, at + 1, (-n) as nat);
        lemma_no_blank(text, at);
    } else {
        lemma_reads_digits(text, at, n as nat);
        lemma_no_blank(text, at);
        lemma_reads_number(text, at, n as nat, max);
        assert(text[at] != '-');
    }
}

// ---------------------------------------------------------------------
// Strings
// ---------------------------------------------------------------------
/// The escaped form of a string begins with that of its first character.
pub proof fn lemma_escaped_front(content: Seq<char>)
    requires
        content.len() > 0,
    ensures
        escaped(content) == escape_char(content[0]) + escaped(content.drop_first()),
    decreases content.len(),
{
    if content.len() == 1 {
        assert(content.drop_last() =~= Seq::<char>::empty());
        assert(content.drop_first() =~= Seq::<char>::empty());
        assert(escaped(content) =~= escape_char(content[0]) + escaped(content.drop_first()));
    } else {
        let inner = content.drop_last();
        lemma_escaped_front(inner);
        assert(inner.drop_first() =~= content.drop_first().drop_last());
        assert(escaped(content) =~= escape_char(content[0]) + escaped(content.drop_first()));
    }
}

/// The rest of a string is read where its escaped characters and the
/// closing quote stand.
pub proof fn lemma_reads_string_rest(
    text: Seq<char>,
    at: int,
    content: Seq<char>,
    before: Seq<char>,
)
    requires
        has_word(text, at, escaped(content) + seq!['"']),
    ensures
        string_rest(text, at, before) == Ok::<(Seq<char>, int), int>(
            (before + content, at + escaped(content).len() + 1),
        ),
    decreases content.len(),
{
    lemma_word_split(text, at, escaped(content), seq!['"']);
    if content.len() == 0 {
        assert(seq!['"'][0] == '"');
        assert(text[at + 0] == '"');
        assert(before + content =~= before);
    } else {
        let c = content[0];
        let rest = content.drop_first();
        lemma_escaped_front(content);
        let head = escape_char(c);
        assert(escaped(content) + seq!['"'] =~= head + (escaped(rest) + seq!['"']));
        lemma_word_split(text, at, head, escaped(rest) + seq!['"']);
        assert(text[at + 0] == head[0]);
        if head.len() == 2 {
            assert(text[at + 1] == head[1]);
        }
        lemma_reads_string_rest(text, at + head.len(), rest, before.push(c));
        assert(before.push(c) + rest =~= before + content);
    }
}

/// A string is read where it stands.
pub proof fn lemma_reads_quoted(text: Seq<char>, at: int, content: Seq<char>)
    requires
        has_word(text, at, quote(content)),
    ensures
        quoted(text, at) == Ok::<(Seq<char>, int), int>((content, at + quote(content).len())),
{
    assert(quote(content) =~= seq!['"'] + (escaped(content) + seq!['"']));
    lemma_reads_symbol(text, at, '"', escaped(content) + seq!['"']);
    lemma_reads_string_rest(text, at + 1, content, Seq::empty());
    assert(Seq::<char>::empty() + content =~= content);
}

// ---------------------------------------------------------------------
// Lists
// ---------------------------------------------------------------------
/// Joined items begin with the first item and a comma.
pub proof fn lemma_joined_front(items: Seq<Seq<char>>)
    requires
        items.len() >= 2,
    ensures
        joined(items) == items[0] + seq![','] + joined(items.drop_first()),
    decreases items.len(),
{
    if items.len() == 2 {
        assert(items.drop_last().len() == 1);
        assert(items.drop_first().len() == 1);
        assert(joined(items.drop_last()) == items[0]);
        assert(joined(items.drop_first()) == items[1]);
    } else {
        let inner = items.drop_last();
        lemma_joined_front(inner);
        assert(inner.drop_first() =~= items.drop_first().drop_last());
        assert(joined(items) =~= items[0] + seq![','] + joined(items.drop_first()));
    }
}

/// What is left to read of a list once `from` of its items are read: the
/// other items and the closing character.
pub open spec fn remaining_items(written: Seq<Seq<char>>, from: int, close: char) -> Seq<char> {
    joined(written.skip(from)) + seq![close]
}

/// `item` reads `value` wherever `written` stands before a comma or before
/// the closing character of the list.
pub open spec fn reads_back<T>(
    text: Seq<char>,
    at: int,
    item: spec_fn(Seq<char>, int) -> Parsed<T>,
    written: Seq<char>,
    value: T,
    close: char,
) -> bool {
    has_word(text, at, written) && at + written.len() < text.len() && (text[at + written.len()]
        == ',' || text[at + written.len()] == close) ==> item(text, at) == Ok::<(T, int), int>(
        (value, at + written.len()),
    )
}

/// The items of a list are read where they stand, each as the value it was
/// written from, if `item` reads each of them back.
#[verifier::rlimit(40)]
pub proof fn lemma_reads_items<T>(
    text: Seq<char>,
    at: int,
    close: char,
    item: spec_fn(Seq<char>, int) -> Parsed<T>,
    values: Seq<T>,
    written: Seq<Seq<char>>,
    from: int,
    before: Seq<T>,
)
    requires
        values.len() == written.len(),
        0 <= from <= values.len(),
        has_word(text, at, remaining_items(written, from, close)),
        !is_blank(close),
        close != ',',
        forall|j: int|
            0 <= j < written.len() ==> (#[trigger] written[j]).len() > 0 && !is_blank(
                written[j][0],
            ) && written[j][0] != close,
        forall|j: int, place: int|
            0 <= j < written.len() ==> #[trigger] reads_back(
                text,
                place,
                item,
                written[j],
                values[j],
                close,
            ),
    ensures
        items_rest(text, at, close, item, before) == Ok::<(Seq<T>, int), int>(
            (before + values.skip(from), at + remaining_items(written, from, close).len()),
        ),
    decreases values.len() - from,
{
    let left = written.skip(from);
    if from == values.len() {
        assert(left.len() == 0);
        assert(remaining_items(written, from, close) =~= seq![close]);
        assert(seq![close][0] == close);
        assert(text[at + 0] == close);
        lemma_no_blank(text, at);
        assert(before + values.skip(from) =~= before);
    } else {
        let first = written[from];
        let value = values[from];
        assert(left[0] == first);
        assert(left.drop_first() =~= written.skip(from + 1));
        let after = remaining_items(written, from + 1, close);
        if from == values.len() - 1 {
            assert(left.len() == 1);
            assert(written.skip(from + 1).len() == 0);
            assert(remaining_items(written, from, close) =~= first + after);
        } else {
            lemma_joined_front(left);
            assert(remaining_items(written, from, close) =~= first + (seq![','] + after));
        }
        let behind = at + first.len();
        if from == values.len() - 1 {
            lemma_word_split(text, at, first, after);
            assert(after =~= seq![close]);
            assert(after[0] == close);
            assert(text[behind + 0] == close);
        } else {
            lemma_word_split(text, at, first, seq![','] + after);
            lemma_reads_symbol(text, behind, ',', after);
        }
        assert(text[at + 0] == first[0]);
        lemma_no_blank(text, at);
        assert(symbol(text, at, close) is Err);
        assert(reads_back(text, at, item, written[from], values[from], close));
        assert(item(text, at) == Ok::<(T, int), int>((value, behind)));
        if from == values.len() - 1 {
            lemma_no_blank(text, behind);
            assert(symbol(text, behind, ',') is Err);
            assert(symbol(text, behind, close) == Ok::<int, int>(behind + 1));
            assert(before.push(value) =~= before + values.skip(from));
        } else {
            lemma_reads_items(text, behind + 1, close, item, values, written, from + 1, before.push(value));
            assert(before.push(value) + values.skip(from + 1) =~= before + values.skip(from));
        }
    }
}

/// A list is read where it stands, if `item` reads each of its items back.
pub proof fn lemma_reads_sequence<T>(
    text: Seq<char>,
    at: int,
    open: char,
    close: char,
    item: spec_fn(Seq<char>, int) -> Parsed<T>,
    values: Seq<T>,
    written: Seq<Seq<char>>,
)
    requires
        values.len() == written.len(),
        has_word(text, at, enclosed(open, written, close)),
        !is_blank(open),
        !is_blank(close),
        close != ',',
        forall|j: int|
            0 <= j < written.len() ==> (#[trigger] written[j]).len() > 0 && !is_blank(
                written[j][0],
            ) && written[j][0] != close,
        forall|j: int, place: int|
            0 <= j < written.len() ==> #[trigger] reads_back(
                text,
                place,
                item,
                written[j],
                values[j],
                close,
            ),
    ensures
        sequence(text, at, open, close, item) == Ok::<(Seq<T>, int), int>(
            (values, at + enclosed(open, written, close).len()),
        ),
{
    assert(written.skip(0) =~= written);
    assert(enclosed(open, written, close) =~= seq![open] + remaining_items(written, 0, close));
    lemma_reads_symbol(text, at, open, remaining_items(written, 0, close));
    lemma_reads_items(text, at + 1, close, item, values, written, 0, Seq::empty());
    assert(values.skip(0) =~= values);
    assert(Seq::<T>::empty() + values =~= values);
}

// ---------------------------------------------------------------------
// Members
// ---------------------------------------------------------------------
/// A member name is not empty and does not begin with a blank.
pub open spec fn is_name(name: Seq<char>) -> bool {
    name.len() > 0 && !is_blank(name[0])
}

/// The member names of the text form are names.
pub proof fn lemma_names()
    ensures
        is_name("path"@),
        is_name("cost"@),
        is_name("id"@),
        is_name("x"@),
        is_name("y"@),
        is_name("edges"@),
        is_name("width"@),
        is_name("height"@),
        is_name("sprites"@),
        is_name("tiles"@),
        is_name("default_tile"@),
        is_name("nav_points"@),
{
    reveal_strlit("path");
    reveal_strlit("cost");
    reveal_strlit("id");
    reveal_strlit("x");
    reveal_strlit("y");
    reveal_strlit("edges");
    reveal_strlit("width");
    reveal_strlit("height");
    reveal_strlit("sprites");
    reveal_strlit("tiles");
    reveal_strlit("default_tile");
    reveal_strlit("nav_points");
}

/// The end of a structure is read where the closing parenthesis stands.
pub proof fn lemma_reads_close(text: Seq<char>, at: int)
    requires
        has_word(text, at, seq![')']),
    ensures
        close_structure(text, at) == Ok::<int, int>(at + 1),
{
    assert(seq![')'][0] == ')');
    assert(text[at + 0] == ')');
    lemma_no_blank(text, at);
}

/// A 16-bit number is read where its digits stand, if no further digit
/// follows.
pub proof fn lemma_reads_u16(text: Seq<char>, at: int, value: u16)
    requires
        has_word(text, at, decimal(value as nat)),
        at + decimal(value as nat).len() < text.len() ==> !is_digit(
            text[at + decimal(value as nat).len()],
        ),
    ensures
        read_u16(text, at) == Ok::<(u16, int), int>((value, at + decimal(value as nat).len())),
{
    lemma_reads_number(text, at, value as nat, 0xffff);
}

/// A machine-sized number is read where its digits stand, if no further
/// digit follows.
pub proof fn lemma_reads_usize(text: Seq<char>, at: int, value: usize)
    requires
        has_word(text, at, decimal(value as nat)),
        at + decimal(value as nat).len() < text.len() ==> !is_digit(
            text[at + decimal(value as nat).len()],
        ),
    ensures
        read_usize(text, at) == Ok::<(usize, int), int>((value, at + decimal(value as nat).len())),
{
    lemma_reads_number(text, at, value as nat, usize::MAX as int);
}

/// A member that holds a 16-bit number is read where it stands before a
/// comma.
pub proof fn lemma_reads_u16_member(
    text: Seq<char>,
    at: int,
    name: Seq<char>,
    value: u16,
    rest: Seq<char>,
)
    requires
        has_word(text, at, member(name, decimal(value as nat)) + (seq![','] + rest)),
        is_name(name),
    ensures
        u16_member(text, at, name) == Ok::<(u16, int), int>(
            (value, at + member(name, decimal(value as nat)).len() + 1),
        ),
        has_word(text, at + member(name, decimal(value as nat)).len() + 1, rest),
{
    let digits = decimal(value as nat);
    assert(member(name, digits) + (seq![','] + rest) =~= name + seq![':'] + (digits + (seq![',']
        + rest)));
    lemma_reads_label(text, at, name, digits + (seq![','] + rest));
    let a = at + name.len() + 1;
    lemma_word_split(text, a, digits, seq![','] + rest);
    lemma_reads_symbol(text, a + digits.len(), ',', rest);
    lemma_reads_u16(text, a, value);
}

/// A member that holds a list is read where it stands before a comma, if
/// the list is read where it stands.
pub proof fn lemma_reads_list_member<T>(
    text: Seq<char>,
    at: int,
    name: Seq<char>,
    open: char,
    close: char,
    item: spec_fn(Seq<char>, int) -> Parsed<T>,
    values: Seq<T>,
    list: Seq<char>,
    rest: Seq<char>,
)
    requires
        has_word(text, at, member(name, list) + (seq![','] + rest)),
        is_name(name),
        has_word(text, at + name.len() + 1, list) ==> sequence(
            text,
            at + name.len() + 1,
            open,
            close,
            item,
        ) == Ok::<(Seq<T>, int), int>((values, at + name.len() + 1 + list.len())),
    ensures
        list_member(text, at, name, open, close, item) == Ok::<(Seq<T>, int), int>(
            (values, at + member(name, list).len() + 1),
        ),
        has_word(text, at + member(name, list).len() + 1, rest),
{
    lemma_member_value(text, at, name, list, seq![','] + rest);
    lemma_reads_symbol(text, at + name.len() + 1 + list.len(), ',', rest);
}

/// Where a member stands, its value stands behind its name and colon.
pub proof fn lemma_member_value(
    text: Seq<char>,
    at: int,
    name: Seq<char>,
    value: Seq<char>,
    rest: Seq<char>,
)
    requires
        has_word(text, at, member(name, value) + rest),
        is_name(name),
    ensures
        label(text, at, name) == Ok::<int, int>(at + name.len() + 1),
        has_word(text, at + name.len() + 1, value),
        has_word(text, at + name.len() + 1 + value.len(), rest),
        member(name, value).len() == name.len() + 1 + value.len(),
{
    assert(member(name, value) + rest =~= name + seq![':'] + (value + rest));
    lemma_reads_label(text, at, name, value + rest);
    lemma_word_split(text, at + name.len() + 1, value, rest);
}

/// A member that holds a machine-sized number is read where it stands
/// before a comma.
pub proof fn lemma_reads_usize_member(
    text: Seq<char>,
    at: int,
    name: Seq<char>,
    value: usize,
    rest: Seq<char>,
)
    requires
        has_word(text, at, member(name, decimal(value as nat)) + (seq![','] + rest)),
        is_name(name),
    ensures
        usize_member(text, at, name) == Ok::<(usize, int), int>(
            (value, at + member(name, decimal(value as nat)).len() + 1),
        ),
        has_word(text, at + member(name, decimal(value as nat)).len() + 1, rest),
{
    let digits = decimal(value as nat);
    lemma_member_value(text, at, name, digits, seq![','] + rest);
    let a = at + name.len() + 1;
    lemma_reads_symbol(text, a + digits.len(), ',', rest);
    lemma_reads_usize(text, a, value);
}

/// A member that holds a string is read where it stands before a comma.
pub proof fn lemma_reads_string_member(
    text: Seq<char>,
    at: int,
    name: Seq<char>,
    value: Seq<char>,
    rest: Seq<char>,
)
    requires
        has_word(text, at, member(name, quote(value)) + (seq![','] + rest)),
        is_name(name),
    ensures
        string_member(text, at, name) == Ok::<(Seq<char>, int), int>(
            (value, at + member(name, quote(value)).len() + 1),
        ),
        has_word(text, at + member(name, quote(value)).len() + 1, rest),
{
    lemma_member_value(text, at, name, quote(value), seq![','] + rest);
    let a = at + name.len() + 1;
    lemma_reads_symbol(text, a + quote(value).len(), ',', rest);
    lemma_reads_quoted(text, a, value);
}

/// The last member of a structure, holding a signed 8-bit number, is read
/// where it stands before the closing parenthesis.
pub proof fn lemma_reads_closing_i8_member(text: Seq<char>, at: int, name: Seq<char>, value: i8)
    requires
        has_word(text, at, member(name, signed_decimal(value as int)) + seq![')']),
        is_name(name),
    ensures
        closing_i8_member(text, at, name) == Ok::<(i8, int), int>(
            (value, at + member(name, signed_decimal(value as int)).len() + 1),
        ),
{
    let digits = signed_decimal(value as int);
    lemma_member_value(text, at, name, digits, seq![')']);
    let a = at + name.len() + 1;
    assert(seq![')'][0] == ')');
    assert(text[a + digits.len() + 0] == ')');
    lemma_reads_signed(text, a, value as int, -128, 127);
    lemma_reads_close(text, a + digits.len());
}

/// The last member of a structure, holding a list, is read where it
/// stands before the closing parenthesis, if the list is read where it
/// stands.
pub proof fn lemma_reads_closing_list_member<T>(
    text: Seq<char>,
    at: int,
    name: Seq<char>,
    item: spec_fn(Seq<char>, int) -> Parsed<T>,
    values: Seq<T>,
    list: Seq<char>,
)
    requires
        has_word(text, at, member(name, list) + seq![')']),
        is_name(name),
        has_word(text, at + name.len() + 1, list) ==> sequence(
            text,
            at + name.len() + 1,
            '[',
            ']',
            item,
        ) == Ok::<(Seq<T>, int), int>((values, at + name.len() + 1 + list.len())),
    ensures
        closing_list_member(text, at, name, item) == Ok::<(Seq<T>, int), int>(
            (values, at + member(name, list).len() + 1),
        ),
{
    lemma_member_value(text, at, name, list, seq![')']);
    lemma_reads_close(text, at + name.len() + 1 + list.len());
}

// ---------------------------------------------------------------------
// Catalog entries
// ---------------------------------------------------------------------
/// A catalog entry is read where it stands.
pub proof fn lemma_reads_definition(text: Seq<char>, at: int, definition: TileDefinitionView)
    requires
        has_word(text, at, written_definition(definition)),
    ensures
        read_definition(text, at) == Ok::<(TileDefinitionView, int), int>(
            (definition, at + written_definition(definition).len()),
        ),
{
    lemma_names();
    let path = member("path"@, quote(definition.path));
    let second = member("cost"@, signed_decimal(definition.cost as int)) + seq![')'];
    let first = path + (seq![','] + second);
    assert(written_definition(definition) =~= seq!['('] + first);
    lemma_reads_symbol(text, at, '(', first);
    lemma_reads_string_member(text, at + 1, "path"@, definition.path, second);
    lemma_reads_closing_i8_member(text, at + 1 + path.len() + 1, "cost"@, definition.cost);
}

/// Each written catalog entry is read back as the entry.
pub proof fn lemma_reads_sprites(text: Seq<char>, at: int, sprites: Seq<TileDefinitionView>)
    requires
        has_word(text, at, written_sprites(sprites)),
    ensures
        sequence(text, at, '[', ']', definition_reader()) == Ok::<
            (Seq<TileDefinitionView>, int),
            int,
        >((sprites, at + written_sprites(sprites).len())),
{
    let written = written_definition_items(sprites);
    assert forall|j: int| 0 <= j < written.len() implies (#[trigger] written[j]).len() > 0
        && !is_blank(written[j][0]) && written[j][0] != ']' by {
        lemma_definition_shape(sprites[j]);
    }
    assert forall|j: int, place: int| 0 <= j < written.len() implies #[trigger] reads_back(
        text,
        place,
        definition_reader(),
        written[j],
        sprites[j],
        ']',
    ) by {
        if has_word(text, place, written[j]) {
            lemma_reads_definition(text, place, sprites[j]);
        }
    }
    lemma_reads_sequence(text, at, '[', ']', definition_reader(), sprites, written);
}

/// A written catalog entry begins with its opening parenthesis.
pub proof fn lemma_definition_shape(definition: TileDefinitionView)
    ensures
        written_definition(definition).len() > 0,
        written_definition(definition)[0] == '(',
{
    let path = quote(definition.path);
    let cost = signed_decimal(definition.cost as int);
    let tail = member("path"@, path) + (seq![','] + (member("cost"@, cost) + seq![')']));
    assert(written_definition(definition) =~= seq!['('] + tail);
}

// ---------------------------------------------------------------------
// Navigation points
// ---------------------------------------------------------------------
/// A list of edges is read where it stands.
pub proof fn lemma_reads_edges(text: Seq<char>, at: int, edges: Seq<u16>)
    requires
        has_word(text, at, written_edges(edges)),
    ensures
        sequence(text, at, '[', ']', u16_reader()) == Ok::<(Seq<u16>, int), int>(
            (edges, at + written_edges(edges).len()),
        ),
{
    let written = written_edge_items(edges);
    assert forall|j: int| 0 <= j < written.len() implies (#[trigger] written[j]).len() > 0
        && !is_blank(written[j][0]) && written[j][0] != ']' by {
        lemma_decimal(edges[j] as nat);
        assert(is_digit(decimal(edges[j] as nat)[0]));
    }
    assert forall|j: int, place: int| 0 <= j < written.len() implies #[trigger] reads_back(
        text,
        place,
        u16_reader(),
        written[j],
        edges[j],
        ']',
    ) by {
        let end = place + written[j].len();
        if has_word(text, place, written[j]) && end < text.len() && (text[end] == ','
            || text[end] == ']') {
            lemma_reads_u16(text, place, edges[j]);
        }
    }
    lemma_reads_sequence(text, at, '[', ']', u16_reader(), edges, written);
}

/// A written node begins with its opening parenthesis.
pub proof fn lemma_nav_point_shape(point: NavPointView)
    ensures
        written_nav_point(point).len() > 0,
        written_nav_point(point)[0] == '(',
{
    let fourth = member("edges"@, written_edges(point.edges)) + seq![')'];
    let third = member("y"@, decimal(point.y as nat)) + (seq![','] + fourth);
    let second = member("x"@, decimal(point.x as nat)) + (seq![','] + third);
    let first = member("id"@, decimal(point.id as nat)) + (seq![','] + second);
    assert(written_nav_point(point) =~= seq!['('] + first);
}

/// A node is read where it stands.
#[verifier::rlimit(40)]
pub proof fn lemma_reads_nav_point(text: Seq<char>, at: int, point: NavPointView)
    requires
        has_word(text, at, written_nav_point(point)),
    ensures
        read_nav_point(text, at) == Ok::<(NavPointView, int), int>(
            (point, at + written_nav_point(point).len()),
        ),
{
    lemma_names();
    let edges = written_edges(point.edges);
    let fourth = member("edges"@, edges) + seq![')'];
    let third = member("y"@, decimal(point.y as nat)) + (seq![','] + fourth);
    let second = member("x"@, decimal(point.x as nat)) + (seq![','] + third);
    let first = member("id"@, decimal(point.id as nat)) + (seq![','] + second);
    assert(written_nav_point(point) =~= seq!['('] + first);
    lemma_reads_symbol(text, at, '(', first);
    let a = at + 1;
    lemma_reads_u16_member(text, a, "id"@, point.id, second);
    let b = a + member("id"@, decimal(point.id as nat)).len() + 1;
    lemma_reads_u16_member(text, b, "x"@, point.x, third);
    let c = b + member("x"@, decimal(point.x as nat)).len() + 1;
    lemma_reads_u16_member(text, c, "y"@, point.y, fourth);
    let d = c + member("y"@, decimal(point.y as nat)).len() + 1;
    if has_word(text, d + "edges"@.len() + 1, edges) {
        lemma_reads_edges(text, d + "edges"@.len() + 1, point.edges);
    }
    lemma_reads_closing_list_member(text, d, "edges"@, u16_reader(), point.edges, edges);
}

/// Each written node is read back as the node.
pub proof fn lemma_reads_nav_points(text: Seq<char>, at: int, points: Seq<NavPointView>)
    requires
        has_word(text, at, written_nav_points(points)),
    ensures
        sequence(text, at, '[', ']', nav_point_reader()) == Ok::<(Seq<NavPointView>, int), int>(
            (points, at + written_nav_points(points).len()),
        ),
{
    let written = written_nav_point_items(points);
    assert forall|j: int| 0 <= j < written.len() implies (#[trigger] written[j]).len() > 0
        && !is_blank(written[j][0]) && written[j][0] != ']' by {
        lemma_nav_point_shape(points[j]);
    }
    assert forall|j: int, place: int| 0 <= j < written.len() implies #[trigger] reads_back(
        text,
        place,
        nav_point_reader(),
        written[j],
        points[j],
        ']',
    ) by {
        if has_word(text, place, written[j]) {
            lemma_reads_nav_point(text, place, points[j]);
        }
    }
    lemma_reads_sequence(text, at, '[', ']', nav_point_reader(), points, written);
}

// ---------------------------------------------------------------------
// The tile table
// ---------------------------------------------------------------------
/// A written entry begins with its opening parenthesis.
pub proof fn lemma_entry_shape(entry: TileEntry)
    ensures
        written_entry(entry).len() > 0,
        written_entry(entry)[0] == '(',
{
    let tail = decimal(entry.0.0 as nat) + (seq![','] + (decimal(entry.0.1 as nat) + (seq![')']
        + (seq![':'] + decimal(entry.1 as nat)))));
    assert(written_entry(entry) =~= seq!['('] + tail);
}

/// An entry is read where it stands, if no further digit follows.
pub proof fn lemma_reads_entry(text: Seq<char>, at: int, entry: TileEntry)
    requires
        has_word(text, at, written_entry(entry)),
        at + written_entry(entry).len() < text.len() ==> !is_digit(
            text[at + written_entry(entry).len()],
        ),
    ensures
        read_entry(text, at) == Ok::<(TileEntry, int), int>(
            (entry, at + written_entry(entry).len()),
        ),
{
    let x = decimal(entry.0.0 as nat);
    let y = decimal(entry.0.1 as nat);
    let index = decimal(entry.1 as nat);
    let fourth = seq![':'] + index;
    let third = y + (seq![')'] + fourth);
    let second = x + (seq![','] + third);
    assert(written_entry(entry) =~= seq!['('] + second);
    lemma_reads_symbol(text, at, '(', second);
    let a = at + 1;
    lemma_word_split(text, a, x, seq![','] + third);
    lemma_reads_symbol(text, a + x.len(), ',', third);
    lemma_reads_u16(text, a, entry.0.0);
    let c = a + x.len() + 1;
    lemma_word_split(text, c, y, seq![')'] + fourth);
    lemma_reads_symbol(text, c + y.len(), ')', fourth);
    lemma_reads_u16(text, c, entry.0.1);
    let f = c + y.len() + 1;
    lemma_reads_symbol(text, f, ':', index);
    lemma_reads_usize(text, f + 1, entry.1);
}

/// A cell and its rank determine each other.
pub proof fn lemma_cell_rank(cell: (u16, u16))
    ensures
        0 <= cell_rank(cell) < 0x1_0000_0000,
        cell_of_rank(cell_rank(cell)) == cell,
{
}

/// The entries below a bound stand for the part of the table below it.
pub proof fn lemma_table_below(table: Map<(u16, u16), usize>, bound: nat)
    requires
        bound <= 0x1_0000_0000,
    ensures
        forall|cell: (u16, u16)| #[trigger]
            table_of(entries_below(table, bound)).contains_key(cell) <==> table.contains_key(cell)
                && cell_rank(cell) < bound,
        forall|cell: (u16, u16)|
            table.contains_key(cell) && cell_rank(cell) < bound ==> #[trigger] table_of(
                entries_below(table, bound),
            )[cell] == table[cell],
    decreases bound,
{
    let entries = entries_below(table, bound);
    if bound == 0 {
        assert(entries =~= Seq::<TileEntry>::empty());
        assert(table_of(entries) =~= Map::<(u16, u16), usize>::empty());
        assert forall|cell: (u16, u16)|
            !(table.contains_key(cell) && cell_rank(cell) < bound) by {
            lemma_cell_rank(cell);
        }
    } else {
        let last = cell_of_rank(bound - 1);
        let before = entries_below(table, (bound - 1) as nat);
        lemma_table_below(table, (bound - 1) as nat);
        assert(cell_rank(last) == bound - 1);
        assert forall|cell: (u16, u16)| cell_rank(cell) == bound - 1 implies cell == last by {
            lemma_cell_rank(cell);
        }
        if table.contains_key(last) {
            assert(entries == before.push((last, table[last])));
            assert(entries.drop_last() =~= before);
            assert(table_of(entries) == table_of(before).insert(last, table[last]));
        } else {
            assert(entries == before);
        }
        assert forall|cell: (u16, u16)| #[trigger]
            table_of(entries).contains_key(cell) <==> table.contains_key(cell) && cell_rank(cell)
                < bound by {
            if cell == last {
            } else {
                assert(table_of(before).contains_key(cell) <==> table.contains_key(cell)
                    && cell_rank(cell) < bound - 1);
            }
        }
        assert forall|cell: (u16, u16)|
            table.contains_key(cell) && cell_rank(cell) < bound implies #[trigger] table_of(
            entries,
        )[cell] == table[cell] by {
            if cell == last {
            } else {
                assert(table_of(before).contains_key(cell));
                assert(table_of(before)[cell] == table[cell]);
            }
        }
    }
}

/// The entries of a table, in the order in which they are written, stand
/// for the table.
pub proof fn lemma_table_of_ordered(table: Map<(u16, u16), usize>)
    ensures
        table_of(ordered_entries(table)) == table,
{
    lemma_table_below(table, 0x1_0000_0000);
    assert forall|cell: (u16, u16)| cell_rank(cell) < 0x1_0000_0000 by {
        lemma_cell_rank(cell);
    }
    assert(table_of(ordered_entries(table)) =~= table);
}

/// A tile table is read where it stands, entry by entry.
pub proof fn lemma_reads_table(text: Seq<char>, at: int, table: Map<(u16, u16), usize>)
    requires
        has_word(text, at, written_table(table)),
    ensures
        sequence(text, at, '{', '}', entry_reader()) == Ok::<(Seq<TileEntry>, int), int>(
            (ordered_entries(table), at + written_table(table).len()),
        ),
{
    let entries = ordered_entries(table);
    let written = written_entry_items(entries);
    assert forall|j: int| 0 <= j < written.len() implies (#[trigger] written[j]).len() > 0
        && !is_blank(written[j][0]) && written[j][0] != '}' by {
        lemma_entry_shape(entries[j]);
    }
    assert forall|j: int, place: int| 0 <= j < written.len() implies #[trigger] reads_back(
        text,
        place,
        entry_reader(),
        written[j],
        entries[j],
        '}',
    ) by {
        let end = place + written[j].len();
        if has_word(text, place, written[j]) && end < text.len() && (text[end] == ','
            || text[end] == '}') {
            lemma_reads_entry(text, place, entries[j]);
        }
    }
    lemma_reads_sequence(text, at, '{', '}', entry_reader(), entries, written);
}

// ---------------------------------------------------------------------
// The map
// ---------------------------------------------------------------------
/// What is written of a map behind its opening parenthesis, from the
/// member `from` on (`0` for `width`, `5` for `nav_points`).
pub open spec fn written_members(map: TileMapView, from: int) -> Seq<char>
    decreases 5 - from,
{
    if from >= 5 {
        member("nav_points"@, written_nav_points(map.nav_points)) + seq![')']
    } else {
        let this = if from == 0 {
            member("width"@, decimal(map.width as nat))
        } else if from == 1 {
            member("height"@, decimal(map.height as nat))
        } else if from == 2 {
            member("sprites"@, written_sprites(map.sprites))
        } else if from == 3 {
            member("tiles"@, written_table(map.tiles))
        } else {
            member("default_tile"@, decimal(map.default_tile as nat))
        };
        this + (seq![','] + written_members(map, from + 1))
    }
}

/// A written map is its opening parenthesis and its members.
#[verifier::rlimit(40)]
pub proof fn lemma_map_shape(map: TileMapView)
    ensures
        written_map(map) == seq!['('] + written_members(map, 0),
{
    let sixth = written_members(map, 5);
    let fifth = written_members(map, 4);
    let fourth = written_members(map, 3);
    let third = written_members(map, 2);
    let second = written_members(map, 1);
    assert(fifth == member("default_tile"@, decimal(map.default_tile as nat)) + (seq![',']
        + sixth));
    assert(fourth == member("tiles"@, written_table(map.tiles)) + (seq![','] + fifth));
    assert(third == member("sprites"@, written_sprites(map.sprites)) + (seq![','] + fourth));
    assert(second == member("height"@, decimal(map.height as nat)) + (seq![','] + third));
    assert(written_members(map, 0) == member("width"@, decimal(map.width as nat)) + (seq![',']
        + second));
    assert(written_map(map) =~= seq!['('] + written_members(map, 0));
}

/// The members of a map from `sprites` on are read where they stand.
#[verifier::rlimit(40)]
proof fn lemma_reads_lists(text: Seq<char>, at: int, map: TileMapView)
    requires
        has_word(text, at, written_members(map, 2)),
    ensures
        list_member(text, at, "sprites"@, '[', ']', definition_reader()) == Ok::<
            (Seq<TileDefinitionView>, int),
            int,
        >((map.sprites, at + member("sprites"@, written_sprites(map.sprites)).len() + 1)),
        list_member(
            text,
            at + member("sprites"@, written_sprites(map.sprites)).len() + 1,
            "tiles"@,
            '{',
            '}',
            entry_reader(),
        ) == Ok::<(Seq<TileEntry>, int), int>(
            (
                ordered_entries(map.tiles),
                at + member("sprites"@, written_sprites(map.sprites)).len() + 1 + member(
                    "tiles"@,
                    written_table(map.tiles),
                ).len() + 1,
            ),
        ),
        has_word(
            text,
            at + member("sprites"@, written_sprites(map.sprites)).len() + 1 + member(
                "tiles"@,
                written_table(map.tiles),
            ).len() + 1,
            written_members(map, 4),
        ),
{
    lemma_names();
    let sprites = written_sprites(map.sprites);
    let tiles = written_table(map.tiles);
    let fourth = written_members(map, 3);
    let fifth = written_members(map, 4);
    assert(written_members(map, 2) == member("sprites"@, sprites) + (seq![','] + fourth));
    assert(fourth == member("tiles"@, tiles) + (seq![','] + fifth));
    if has_word(text, at + "sprites"@.len() + 1, sprites) {
        lemma_reads_sprites(text, at + "sprites"@.len() + 1, map.sprites);
    }
    lemma_reads_list_member(
        text,
        at,
        "sprites"@,
        '[',
        ']',
        definition_reader(),
        map.sprites,
        sprites,
        fourth,
    );
    let d = at + member("sprites"@, sprites).len() + 1;
    if has_word(text, d + "tiles"@.len() + 1, tiles) {
        lemma_reads_table(text, d + "tiles"@.len() + 1, map.tiles);
    }
    lemma_reads_list_member(
        text,
        d,
        "tiles"@,
        '{',
        '}',
        entry_reader(),
        ordered_entries(map.tiles),
        tiles,
        fifth,
    );
}

/// The last two members of a map are read where they stand.
#[verifier::rlimit(40)]
proof fn lemma_reads_last_members(text: Seq<char>, at: int, map: TileMapView)
    requires
        has_word(text, at, written_members(map, 4)),
    ensures
        usize_member(text, at, "default_tile"@) == Ok::<(usize, int), int>(
            (
                map.default_tile,
                at + member("default_tile"@, decimal(map.default_tile as nat)).len() + 1,
            ),
        ),
        closing_list_member(
            text,
            at + member("default_tile"@, decimal(map.default_tile as nat)).len() + 1,
            "nav_points"@,
            nav_point_reader(),
        ) == Ok::<(Seq<NavPointView>, int), int>(
            (map.nav_points, at + written_members(map, 4).len()),
        ),
{
    lemma_names();
    let default_tile = member("default_tile"@, decimal(map.default_tile as nat));
    let nav_points = written_nav_points(map.nav_points);
    let sixth = written_members(map, 5);
    assert(written_members(map, 4) == default_tile + (seq![','] + sixth));
    assert(sixth == member("nav_points"@, nav_points) + seq![')']);
    lemma_reads_usize_member(text, at, "default_tile"@, map.default_tile, sixth);
    let g = at + default_tile.len() + 1;
    if has_word(text, g + "nav_points"@.len() + 1, nav_points) {
        lemma_reads_nav_points(text, g + "nav_points"@.len() + 1, map.nav_points);
    }
    lemma_reads_closing_list_member(
        text,
        g,
        "nav_points"@,
        nav_point_reader(),
        map.nav_points,
        nav_points,
    );
}

/// A map is read where it stands.
#[verifier::rlimit(40)]
pub proof fn lemma_reads_map_at(text: Seq<char>, at: int, map: TileMapView)
    requires
        has_word(text, at, written_map(map)),
    ensures
        read_map_at(text, at) == Ok::<(TileMapView, int), int>(
            (map, at + written_map(map).len()),
        ),
{
    lemma_names();
    lemma_map_shape(map);
    let width = member("width"@, decimal(map.width as nat));
    let height = member("height"@, decimal(map.height as nat));
    let sprites = member("sprites"@, written_sprites(map.sprites));
    let tiles = member("tiles"@, written_table(map.tiles));
    let second = written_members(map, 1);
    let third = written_members(map, 2);
    let fifth = written_members(map, 4);
    assert(written_members(map, 0) == width + (seq![','] + second));
    assert(second == height + (seq![','] + third));
    lemma_reads_symbol(text, at, '(', written_members(map, 0));
    let a = at + 1;
    lemma_reads_u16_member(text, a, "width"@, map.width, second);
    let b = a + width.len() + 1;
    lemma_reads_u16_member(text, b, "height"@, map.height, third);
    let c = b + height.len() + 1;
    lemma_reads_lists(text, c, map);
    let f = c + sprites.len() + 1 + tiles.len() + 1;
    lemma_reads_last_members(text, f, map);
    lemma_table_of_ordered(map.tiles);
    assert(third.len() == sprites.len() + 1 + tiles.len() + 1 + fifth.len()) by {
        let fourth = written_members(map, 3);
        assert(third == sprites + (seq![','] + fourth));
        assert(fourth == tiles + (seq![','] + fifth));
    }
}

/// The round-trip law: reading the text that a map is written as gives
/// back that map, in every member, whatever order the tile table was
/// filled in.
pub proof fn lemma_round_trip(map: TileMapView)
    ensures
        read_map(written_map(map)) == Ok::<TileMapView, int>(map),
        decoded(written_map(map)) == Ok::<TileMapView, DecodeError>(map),
{
    let text = written_map(map);
    assert(has_word(text, 0, text));
    lemma_reads_map_at(text, 0, map);
    lemma_no_blank(text, text.len() as int);
}

} // verus!
