//! Whether the parts of a workbook are such that a reader can work with them: references
//! to cells, counts and formats of a size that its numbers hold.
use crate::archive::{
    archive_bytes, archive_complaint, entry_bytes, entry_bytes_of, entry_names, entry_names_of,
    open_archive,
};
use crate::text::{
    borrowed_text, chars_of, equal_ignoring_case, fold_chars, folded, is_whitespace, lemma_run_ends,
    lemma_run_len, run_len, same_chars, same_text, slice_of, spaces, string_of, strip_start, texts,
};
use crate::xml::{next_tag, part_reader, part_tags, unread_tags, TagModel, XmlTag};
use std::io::Cursor;
use vstd::prelude::*;
use zip::ZipArchive;

verus! {

// ---------------------------------------------------------------------------------
// Attributes
// ---------------------------------------------------------------------------------

/// The predicate that holds of one character.
pub open spec fn only(stop: char) -> spec_fn(char) -> bool {
    |c: char| c == stop
}

/// What can be read as a quoted value at the beginning of a text, behind white space.
pub open spec fn quoted(text: Seq<char>) -> Option<Seq<char>> {
    let rest = strip_start(text, spaces());
    if rest.len() > 0 && (rest[0] == '"' || rest[0] == '\'') {
        Some(rest.skip(1).take(run_len(rest.skip(1), only(rest[0])) as int))
    } else {
        None
    }
}

/// What can be read as the value of an attribute whose name stands at a place.
pub open spec fn value_at(attributes: Seq<char>, name: Seq<char>, at: int) -> Option<Seq<char>> {
    if at + name.len() <= attributes.len() && attributes.subrange(at, at + name.len()) == name {
        let rest = strip_start(attributes.skip(at + name.len()), spaces());
        if rest.len() > 0 && rest[0] == '=' {
            quoted(rest.skip(1))
        } else {
            None
        }
    } else {
        None
    }
}

/// Everything that can be read as the value of an attribute, whatever stands around it,
/// from a place on.
pub open spec fn values_from(attributes: Seq<char>, name: Seq<char>, at: nat) -> Seq<Seq<char>>
    decreases attributes.len() - at,
{
    if at >= attributes.len() {
        Seq::empty()
    } else {
        let rest = values_from(attributes, name, at + 1);
        match value_at(attributes, name, at as int) {
            Some(value) => seq![value] + rest,
            None => rest,
        }
    }
}

/// Everything that can be read as the value of an attribute.
pub open spec fn values_of(attributes: Seq<char>, name: Seq<char>) -> Seq<Seq<char>> {
    values_from(attributes, name, 0)
}

/// Where the white space that begins at a place ends.
fn behind_space(chars: &Vec<char>, from: usize) -> (to: usize)
    requires
        from <= chars.len(),
    ensures
        from <= to <= chars.len(),
        chars@.skip(to as int) == strip_start(chars@.skip(from as int), spaces()),
{
    let mut to: usize = from;
    while to < chars.len() && is_whitespace(chars[to])
        invariant
            from <= to <= chars.len(),
            strip_start(chars@.skip(to as int), spaces()) == strip_start(
                chars@.skip(from as int),
                spaces(),
            ),
        decreases chars.len() - to,
    {
        proof {
            assert(chars@.skip(to as int)[0] == chars@[to as int]);
            assert(spaces()(chars@[to as int]));
            assert(chars@.skip(to as int).skip(1) =~= chars@.skip(to + 1));
        }
        to = to + 1;
    }
    proof {
        if to < chars.len() {
            assert(chars@.skip(to as int)[0] == chars@[to as int]);
        }
    }
    to
}

/// What can be read as a quoted value from a place on.
fn quoted_from(chars: &Vec<char>, from: usize) -> (value: Option<Vec<char>>)
    requires
        from <= chars.len(),
    ensures
        match value {
            Some(value) => quoted(chars@.skip(from as int)) == Some(value@),
            None => quoted(chars@.skip(from as int)) is None,
        },
{
    let start = behind_space(chars, from);
    if start >= chars.len() {
        return None;
    }
    let quote = chars[start];
    let ghost rest = chars@.skip(start as int);
    proof {
        assert(rest[0] == quote);
    }
    if quote != '"' && quote != '\'' {
        return None;
    }
    let ghost body = rest.skip(1);
    let mut value: Vec<char> = Vec::new();
    let mut end: usize = start + 1;
    proof {
        assert(body.skip(0) =~= body);
        assert(body.take(0) =~= Seq::empty());
    }
    while end < chars.len() && chars[end] != quote
        invariant
            start < end <= chars.len(),
            rest == chars@.skip(start as int),
            body == rest.skip(1),
            value@ == body.take(end - start - 1),
            end - start - 1 + run_len(body.skip(end - start - 1), only(quote)) == run_len(
                body,
                only(quote),
            ),
        decreases chars.len() - end,
    {
        proof {
            let n = end - start - 1;
            assert(body.skip(n)[0] == chars@[end as int]);
            assert(body.skip(n).skip(1) =~= body.skip(n + 1));
            assert(body.take(n + 1) =~= body.take(n).push(chars@[end as int]));
        }
        value.push(chars[end]);
        end = end + 1;
    }
    proof {
        let n = end - start - 1;
        if end < chars.len() {
            assert(body.skip(n)[0] == chars@[end as int]);
        }
        assert(run_len(body.skip(n), only(quote)) == 0);
    }
    Some(value)
}

/// Whether a text stands at a place of another.
fn stands_at(chars: &Vec<char>, name: &Vec<char>, at: usize) -> (stands: bool)
    requires
        at <= chars.len(),
    ensures
        stands == (at + name@.len() <= chars@.len() && chars@.subrange(
            at as int,
            at + name@.len(),
        ) == name@),
{
    if chars.len() - at < name.len() {
        return false;
    }
    let mut i: usize = 0;
    while i < name.len()
        invariant
            i <= name.len(),
            at + name.len() <= chars.len(),
            forall|k: int| 0 <= k < i ==> chars@[at + k] == #[trigger] name@[k],
        decreases name.len() - i,
    {
        if chars[at + i] != name[i] {
            proof {
                assert(chars@.subrange(at as int, at + name@.len())[i as int] == chars@[at + i]);
            }
            return false;
        }
        i = i + 1;
    }
    proof {
        assert(chars@.subrange(at as int, at + name@.len()) =~= name@);
    }
    true
}

/// What can be read as the value of an attribute whose name stands at a place.
fn value_found(chars: &Vec<char>, name: &Vec<char>, at: usize) -> (value: Option<Vec<char>>)
    requires
        at <= chars.len(),
    ensures
        match value {
            Some(value) => value_at(chars@, name@, at as int) == Some(value@),
            None => value_at(chars@, name@, at as int) is None,
        },
{
    if !stands_at(chars, name, at) {
        return None;
    }
    let sign = behind_space(chars, at + name.len());
    if sign >= chars.len() {
        return None;
    }
    proof {
        assert(chars@.skip(sign as int)[0] == chars@[sign as int]);
        assert(chars@.skip(sign as int).skip(1) =~= chars@.skip(sign + 1));
    }
    if chars[sign] != '=' {
        return None;
    }
    quoted_from(chars, sign + 1)
}

/// The contents of some sequences of characters.
pub open spec fn char_texts(values: Seq<Vec<char>>) -> Seq<Seq<char>> {
    values.map_values(|value: Vec<char>| value@)
}

/// Everything that can be read as the value of an attribute.
fn all_values(attributes: &str, name: &str) -> (values: Vec<Vec<char>>)
    ensures
        char_texts(values@) == values_of(attributes@, name@),
{
    let chars = chars_of(attributes);
    let name = chars_of(name);
    let mut values: Vec<Vec<char>> = Vec::new();
    let mut at: usize = 0;
    proof {
        assert(char_texts(values@) + values_of(chars@, name@) =~= values_of(chars@, name@));
    }
    while at < chars.len()
        invariant
            at <= chars.len(),
            char_texts(values@) + values_from(chars@, name@, at as nat) == values_of(chars@, name@),
        decreases chars.len() - at,
    {
        let ghost rest = values_from(chars@, name@, (at + 1) as nat);
        match value_found(&chars, &name, at) {
            Some(value) => {
                proof {
                    assert(char_texts(values@.push(value)) + rest =~= char_texts(values@) + (seq![
                        value@,
                    ] + rest));
                }
                values.push(value);
            },
            None => {},
        }
        at = at + 1;
    }
    proof {
        assert(char_texts(values@) + Seq::empty() =~= char_texts(values@));
    }
    values
}

// ---------------------------------------------------------------------------------
// References to cells
// ---------------------------------------------------------------------------------

/// The last column that a reference may name, counted from one.
pub const MAX_COLUMN: u32 = 18_278;

/// The last row that a reference may name, counted from one, and the largest count.
pub const MAX_NUMBER: u32 = 9_999_999;

/// How many brackets the code of a number format may have.
pub const MAX_BRACKETS: u32 = 255;

/// Whether a character is a letter of ASCII.
pub open spec fn is_letter(c: char) -> bool {
    'a' <= c <= 'z' || 'A' <= c <= 'Z'
}

/// Whether a character is a digit of ASCII.
pub open spec fn is_digit(c: char) -> bool {
    '0' <= c <= '9'
}

/// The predicate that holds of what is no letter.
pub open spec fn no_letter() -> spec_fn(char) -> bool {
    |c: char| !is_letter(c)
}

/// The predicate that holds of what is no digit.
pub open spec fn no_digit() -> spec_fn(char) -> bool {
    |c: char| !is_digit(c)
}

/// The letters at the beginning of a text.
pub open spec fn letters(text: Seq<char>) -> Seq<char> {
    text.take(run_len(text, no_letter()) as int)
}

/// The digits at the beginning of a text.
pub open spec fn digits(text: Seq<char>) -> Seq<char> {
    text.take(run_len(text, no_digit()) as int)
}

/// The place of a letter in the alphabet, counted from one.
pub open spec fn letter_place(c: char) -> nat {
    if 'a' <= c <= 'z' {
        (c as int - 'a' as int + 1) as nat
    } else {
        (c as int - 'A' as int + 1) as nat
    }
}

/// The column that letters name, counted from one.
pub open spec fn column(text: Seq<char>) -> nat
    decreases text.len(),
{
    if text.len() == 0 {
        0
    } else {
        column(text.drop_last()) * 26 + letter_place(text.last())
    }
}

/// The number that digits are.
pub open spec fn number(text: Seq<char>) -> nat
    decreases text.len(),
{
    if text.len() == 0 {
        0
    } else {
        (number(text.drop_last()) * 10 + (text.last() as int - '0' as int)) as nat
    }
}

/// Whether the numbers in a reference to a cell are small enough.
pub open spec fn reference_fits(text: Seq<char>) -> bool {
    &&& column(letters(text)) <= MAX_COLUMN
    &&& number(digits(text.skip(letters(text).len() as int))) <= MAX_NUMBER
}

/// The column and the row of a reference to a cell, if it is one.
pub open spec fn place(text: Seq<char>) -> Option<(nat, nat)> {
    let behind = text.skip(letters(text).len() as int);
    if column(letters(text)) > 0 && number(digits(behind)) > 0 && digits(behind).len()
        == behind.len() {
        Some((column(letters(text)), number(digits(behind))))
    } else {
        None
    }
}

/// The pieces of a text between its colons.
pub open spec fn pieces(text: Seq<char>) -> Seq<Seq<char>>
    decreases text.len(),
{
    let at = run_len(text, only(':')) as int;
    if at < text.len() {
        seq![text.take(at)] + pieces(text.skip(at + 1))
    } else {
        seq![text]
    }
}

/// Whether one place is not behind another.
pub open spec fn in_order(first: Option<(nat, nat)>, second: Option<(nat, nat)>) -> bool {
    first matches Some((left, top)) ==> second matches Some((right, bottom)) ==> left <= right
        && top <= bottom
}

/// Whether the numbers in a reference to a rectangle of cells are small enough, and its
/// second corner not before its first.
pub open spec fn dimension_fits(text: Seq<char>) -> bool {
    &&& forall|i: int| 0 <= i < pieces(text).len() ==> reference_fits(#[trigger] pieces(text)[i])
    &&& pieces(text).len() == 2 ==> in_order(place(pieces(text)[0]), place(pieces(text)[1]))
}

/// Whether a count is small enough, if it is one.
pub open spec fn count_fits(text: Seq<char>) -> bool {
    digits(text).len() == text.len() ==> number(text) <= MAX_NUMBER
}

/// How many characters of a text may stand for a bracket.
pub open spec fn brackets(text: Seq<char>) -> nat
    decreases text.len(),
{
    if text.len() == 0 {
        0
    } else {
        brackets(text.drop_last()) + if text.last() == '[' || text.last() == '&' {
            1nat
        } else {
            0nat
        }
    }
}

/// More letters do not name an earlier column.
proof fn lemma_column_grows(text: Seq<char>, n: int)
    requires
        0 <= n <= text.len(),
    ensures
        column(text.take(n)) <= column(text),
    decreases text.len(),
{
    if n == text.len() {
        assert(text.take(n) =~= text);
    } else {
        assert(text.drop_last().take(n) =~= text.take(n));
        lemma_column_grows(text.drop_last(), n);
    }
}

/// More digits do not make a smaller number.
proof fn lemma_number_grows(text: Seq<char>, n: int)
    requires
        0 <= n <= text.len(),
        forall|i: int| 0 <= i < text.len() ==> is_digit(#[trigger] text[i]),
    ensures
        number(text.take(n)) <= number(text),
    decreases text.len(),
{
    if n == text.len() {
        assert(text.take(n) =~= text);
    } else {
        assert(text.drop_last().take(n) =~= text.take(n));
        assert(is_digit(text[text.len() - 1]));
        lemma_number_grows(text.drop_last(), n);
    }
}

/// More characters do not hold fewer brackets.
proof fn lemma_brackets_grow(text: Seq<char>, n: int)
    requires
        0 <= n <= text.len(),
    ensures
        brackets(text.take(n)) <= brackets(text),
    decreases text.len(),
{
    if n == text.len() {
        assert(text.take(n) =~= text);
    } else {
        assert(text.drop_last().take(n) =~= text.take(n));
        lemma_brackets_grow(text.drop_last(), n);
    }
}

/// A run is made of characters that do not stop it.
proof fn lemma_run(text: Seq<char>, stop: spec_fn(char) -> bool, i: int)
    requires
        0 <= i < run_len(text, stop),
    ensures
        run_len(text, stop) <= text.len(),
        !stop(text[i]),
    decreases text.len(),
{
    lemma_run_len(text, stop);
    if i > 0 {
        lemma_run(text.skip(1), stop, i - 1);
    }
}

/// A run goes on behind the characters of it that were passed.
proof fn lemma_run_behind(text: Seq<char>, stop: spec_fn(char) -> bool, i: int)
    requires
        0 <= i <= run_len(text, stop),
    ensures
        run_len(text, stop) <= text.len(),
        i + run_len(text.skip(i), stop) == run_len(text, stop),
    decreases text.len(),
{
    lemma_run_len(text, stop);
    if i == 0 {
        assert(text.skip(0) =~= text);
    } else {
        assert(text.skip(1).skip(i - 1) =~= text.skip(i));
        lemma_run_behind(text.skip(1), stop, i - 1);
    }
}

/// Whether a character is a letter of ASCII.
fn is_ascii_letter(c: char) -> (letter: bool)
    ensures
        letter == is_letter(c),
{
    ('a' <= c && c <= 'z') || ('A' <= c && c <= 'Z')
}

/// The column that the letters at the beginning of a text name, if it is small enough, and
/// how many letters there are.
fn read_column(text: &Vec<char>) -> (found: Option<(u32, usize)>)
    ensures
        match found {
            Some((value, end)) => end == letters(text@).len() && end <= text@.len() && value
                == column(letters(text@)) && value <= MAX_COLUMN,
            None => column(letters(text@)) > MAX_COLUMN,
        },
{
    let mut value: u32 = 0;
    let mut end: usize = 0;
    proof {
        assert(text@.take(0) =~= Seq::empty());
        lemma_run_len(text@, no_letter());
    }
    while end < text.len() && is_ascii_letter(text[end])
        invariant
            end <= run_len(text@, no_letter()) <= text@.len(),
            value == column(text@.take(end as int)),
            value <= MAX_COLUMN,
        decreases text.len() - end,
    {
        let c = text[end];
        proof {
            lemma_run_behind(text@, no_letter(), end as int);
            assert(text@.skip(end as int)[0] == c);
            assert(text@.take(end + 1).drop_last() =~= text@.take(end as int));
        }
        let place: u32 = if 'a' <= c && c <= 'z' {
            c as u32 - 'a' as u32 + 1
        } else {
            c as u32 - 'A' as u32 + 1
        };
        value = value * 26 + place;
        end = end + 1;
        if value > MAX_COLUMN {
            proof {
                lemma_column_grows(letters(text@), end as int);
                assert(letters(text@).take(end as int) =~= text@.take(end as int));
            }
            return None;
        }
    }
    proof {
        lemma_run_behind(text@, no_letter(), end as int);
        if end < text.len() {
            assert(text@.skip(end as int)[0] == text@[end as int]);
        }
        assert(run_len(text@.skip(end as int), no_letter()) == 0);
    }
    Some((value, end))
}

/// The number that the digits at a place of a text are, if it is small enough, and where
/// they end.
fn read_number(text: &Vec<char>, from: usize) -> (found: Option<(u32, usize)>)
    requires
        from <= text.len(),
    ensures
        match found {
            Some((value, end)) => from <= end <= text@.len() && end - from == digits(
                text@.skip(from as int),
            ).len() && value == number(digits(text@.skip(from as int))) && value <= MAX_NUMBER,
            None => number(digits(text@.skip(from as int))) > MAX_NUMBER,
        },
{
    let ghost rest = text@.skip(from as int);
    let mut value: u32 = 0;
    let mut end: usize = from;
    proof {
        assert(rest.take(0) =~= Seq::empty());
        lemma_run_len(rest, no_digit());
    }
    while end < text.len() && '0' <= text[end] && text[end] <= '9'
        invariant
            rest == text@.skip(from as int),
            from <= end <= text.len(),
            end - from <= run_len(rest, no_digit()) <= rest.len(),
            value == number(rest.take(end - from)),
            value <= MAX_NUMBER,
        decreases text.len() - end,
    {
        let c = text[end];
        proof {
            let n = end - from;
            lemma_run_behind(rest, no_digit(), n);
            assert(rest.skip(n)[0] == c);
            assert(rest.take(n + 1).drop_last() =~= rest.take(n));
            assert(rest.take(n + 1).last() == c);
        }
        value = value * 10 + (c as u32 - '0' as u32);
        end = end + 1;
        if value > MAX_NUMBER {
            proof {
                let all = digits(rest);
                assert forall|i: int| 0 <= i < all.len() implies is_digit(#[trigger] all[i]) by {
                    lemma_run(rest, no_digit(), i);
                }
                lemma_number_grows(all, end - from);
                assert(all.take(end - from) =~= rest.take(end - from));
            }
            return None;
        }
    }
    proof {
        let n = end - from;
        lemma_run_behind(rest, no_digit(), n);
        if end < text.len() {
            assert(rest.skip(n)[0] == text@[end as int]);
        }
        assert(run_len(rest.skip(n), no_digit()) == 0);
    }
    Some((value, end))
}

/// A reference to a cell whose numbers are small enough: the column and the row, if it has
/// both and nothing else.
fn read_reference(text: &Vec<char>) -> (found: Option<Option<(u32, u32)>>)
    ensures
        match found {
            Some(found) => reference_fits(text@) && match found {
                Some((left, top)) => place(text@) == Some((left as nat, top as nat)),
                None => place(text@) is None,
            },
            None => !reference_fits(text@),
        },
{
    match read_column(text) {
        None => None,
        Some((column, behind)) => match read_number(text, behind) {
            None => None,
            Some((row, end)) => if column > 0 && row > 0 && end == text.len() {
                Some(Some((column, row)))
            } else {
                Some(None)
            },
        },
    }
}

/// The pieces of a text between its colons.
fn split_at_colons(text: &Vec<char>) -> (found: Vec<Vec<char>>)
    ensures
        char_texts(found@) == pieces(text@),
{
    let mut found: Vec<Vec<char>> = Vec::new();
    let mut from: usize = 0;
    let mut at: usize = 0;
    proof {
        assert(text@.skip(0) =~= text@);
        assert(char_texts(found@) + pieces(text@) =~= pieces(text@));
    }
    while at < text.len()
        invariant
            from <= at <= text.len(),
            char_texts(found@) + pieces(text@.skip(from as int)) == pieces(text@),
            at - from + run_len(text@.skip(at as int), only(':')) == run_len(
                text@.skip(from as int),
                only(':'),
            ),
        decreases text.len() - at,
    {
        let ghost rest = text@.skip(from as int);
        proof {
            assert(text@.skip(at as int)[0] == text@[at as int]);
            assert(text@.skip(at as int).skip(1) =~= text@.skip(at + 1));
        }
        if text[at] == ':' {
            let piece = slice_of(text, from, at);
            proof {
                assert(run_len(text@.skip(at as int), only(':')) == 0);
                assert(piece@ =~= rest.take(at - from));
                assert(rest.skip(at - from + 1) =~= text@.skip(at + 1));
                let later = pieces(text@.skip(at + 1));
                assert(char_texts(found@.push(piece)) + later =~= char_texts(found@) + (seq![
                    piece@,
                ] + later));
            }
            found.push(piece);
            from = at + 1;
        }
        at = at + 1;
    }
    let piece = slice_of(text, from, text.len());
    proof {
        let rest = text@.skip(from as int);
        assert(run_len(text@.skip(at as int), only(':')) == 0);
        assert(piece@ =~= rest);
        assert(char_texts(found@.push(piece)) =~= char_texts(found@) + seq![piece@]);
    }
    found.push(piece);
    found
}

/// Whether a reference to a rectangle of cells fits.
fn is_small_dimension(text: &Vec<char>) -> (fits: bool)
    ensures
        fits == dimension_fits(text@),
{
    let parts = split_at_colons(text);
    proof {
        assert(char_texts(parts@) == pieces(text@));
    }
    let mut places: Vec<Option<(u32, u32)>> = Vec::new();
    let mut i: usize = 0;
    while i < parts.len()
        invariant
            i <= parts.len(),
            char_texts(parts@) == pieces(text@),
            parts@.len() == pieces(text@).len(),
            places@.len() == i,
            forall|k: int| 0 <= k < i ==> reference_fits(#[trigger] pieces(text@)[k]),
            forall|k: int|
                0 <= k < i ==> match #[trigger] places@[k] {
                    Some((left, top)) => place(pieces(text@)[k]) == Some((left as nat, top as nat)),
                    None => place(pieces(text@)[k]) is None,
                },
        decreases parts.len() - i,
    {
        proof {
            assert(char_texts(parts@)[i as int] == parts@[i as int]@);
        }
        match read_reference(&parts[i]) {
            Some(found) => places.push(found),
            None => {
                proof {
                    assert(!reference_fits(pieces(text@)[i as int]));
                }
                return false;
            },
        }
        i = i + 1;
    }
    if places.len() != 2 {
        return true;
    }
    match (places[0], places[1]) {
        (Some((left, top)), Some((right, bottom))) => left <= right && top <= bottom,
        _ => true,
    }
}

/// Whether a count is small enough, if it is one.
fn is_small_count(text: &Vec<char>) -> (fits: bool)
    ensures
        fits == count_fits(text@),
{
    proof {
        assert(text@.skip(0) =~= text@);
        lemma_run_len(text@, no_digit());
    }
    let mut end: usize = 0;
    while end < text.len() && '0' <= text[end] && text[end] <= '9'
        invariant
            end <= run_len(text@, no_digit()) <= text@.len(),
        decreases text.len() - end,
    {
        proof {
            lemma_run_behind(text@, no_digit(), end as int);
            assert(text@.skip(end as int)[0] == text@[end as int]);
        }
        end = end + 1;
    }
    proof {
        lemma_run_behind(text@, no_digit(), end as int);
        if end < text.len() {
            assert(text@.skip(end as int)[0] == text@[end as int]);
        }
        assert(run_len(text@.skip(end as int), no_digit()) == 0);
        if end == text.len() {
            assert(digits(text@) =~= text@);
        }
    }
    end < text.len() || read_number(text, 0).is_some()
}

/// Whether a format has few enough brackets.
fn is_small_format(text: &Vec<char>) -> (fits: bool)
    ensures
        fits == (brackets(text@) <= MAX_BRACKETS),
{
    let mut count: u32 = 0;
    let mut i: usize = 0;
    proof {
        assert(text@.take(0) =~= Seq::empty());
    }
    while i < text.len()
        invariant
            i <= text.len(),
            count == brackets(text@.take(i as int)),
            count <= MAX_BRACKETS,
        decreases text.len() - i,
    {
        proof {
            assert(text@.take(i + 1).drop_last() =~= text@.take(i as int));
            lemma_brackets_grow(text@, i + 1);
        }
        if text[i] == '[' || text[i] == '&' {
            count = count + 1;
            if count > MAX_BRACKETS {
                return false;
            }
        }
        i = i + 1;
    }
    proof {
        assert(text@.take(text@.len() as int) =~= text@);
    }
    true
}

// ---------------------------------------------------------------------------------
// Tags
// ---------------------------------------------------------------------------------

/// What a part of a workbook is read for.
#[derive(Debug, Clone, Copy, PartialEq, Eq, Structural)]
pub enum PartRole {
    /// The texts that cells share.
    Strings,
    /// How cells are shown.
    Styles,
    /// The cells of a sheet.
    Sheet,
}

/// Whether a text that an attribute may hold is one that its reader can work with.
pub open spec fn value_fits(role: PartRole, inside: bool, value: Seq<char>) -> bool {
    match role {
        PartRole::Strings => count_fits(value),
        PartRole::Styles => brackets(value) <= MAX_BRACKETS,
        PartRole::Sheet => if inside {
            reference_fits(value)
        } else {
            dimension_fits(value)
        },
    }
}

/// The attribute of a tag that a part is read for, if there is one. In a sheet it makes a
/// difference whether the tag stands inside the data.
pub open spec fn attribute_read(role: PartRole, inside: bool, name: Seq<char>) -> Option<
    Seq<char>,
> {
    match role {
        PartRole::Strings => if name == "sst"@ {
            Some("uniqueCount"@)
        } else {
            None
        },
        PartRole::Styles => if name == "numFmt"@ {
            Some("formatCode"@)
        } else {
            None
        },
        PartRole::Sheet => if inside && (name == "row"@ || name == "c"@) {
            Some("r"@)
        } else if !inside && name == "dimension"@ {
            Some("ref"@)
        } else {
            None
        },
    }
}

/// Whether what a start tag says is such that its reader can work with it.
pub open spec fn tag_fits(role: PartRole, inside: bool, tag: TagModel) -> bool {
    attribute_read(role, inside, tag.name) matches Some(attribute) ==> forall|i: int|
        0 <= i < values_of(tag.attributes, attribute).len() ==> value_fits(
            role,
            inside,
            #[trigger] values_of(tag.attributes, attribute)[i],
        )
}

/// Whether all texts are such that their reader can work with them.
fn all_fit(role: PartRole, inside: bool, values: &Vec<Vec<char>>) -> (fit: bool)
    ensures
        fit == (forall|i: int|
            0 <= i < char_texts(values@).len() ==> value_fits(
                role,
                inside,
                #[trigger] char_texts(values@)[i],
            )),
{
    let mut i: usize = 0;
    while i < values.len()
        invariant
            i <= values.len(),
            forall|k: int|
                0 <= k < i ==> value_fits(role, inside, #[trigger] char_texts(values@)[k]),
        decreases values.len() - i,
    {
        proof {
            assert(char_texts(values@)[i as int] == values@[i as int]@);
        }
        let fits = match role {
            PartRole::Strings => is_small_count(&values[i]),
            PartRole::Styles => is_small_format(&values[i]),
            PartRole::Sheet => if inside {
                read_reference(&values[i]).is_some()
            } else {
                is_small_dimension(&values[i])
            },
        };
        if !fits {
            return false;
        }
        i = i + 1;
    }
    true
}

/// The attribute of a tag that a part is read for, if there is one.
fn attribute_of(role: PartRole, inside: bool, name: &str) -> (attribute: Option<&'static str>)
    ensures
        borrowed_text(attribute) == attribute_read(role, inside, name@),
{
    match role {
        PartRole::Strings => if same_text(name, "sst") {
            Some("uniqueCount")
        } else {
            None
        },
        PartRole::Styles => if same_text(name, "numFmt") {
            Some("formatCode")
        } else {
            None
        },
        PartRole::Sheet => if inside && (same_text(name, "row") || same_text(name, "c")) {
            Some("r")
        } else if !inside && same_text(name, "dimension") {
            Some("ref")
        } else {
            None
        },
    }
}

/// Whether what a start tag says is such that its reader can work with it.
pub fn is_small_tag(role: PartRole, inside: bool, tag: &XmlTag) -> (fits: bool)
    ensures
        fits == tag_fits(role, inside, tag@),
{
    match attribute_of(role, inside, tag.name.as_str()) {
        Some(attribute) => {
            let values = all_values(tag.attributes.as_str(), attribute);
            proof {
                assert(char_texts(values@) == values_of(tag@.attributes, attribute@));
            }
            all_fit(role, inside, &values)
        },
        None => true,
    }
}

// ---------------------------------------------------------------------------------
// Parts
// ---------------------------------------------------------------------------------

/// Whether a piece begins the data of a sheet.
pub open spec fn begins_data(piece: Option<TagModel>) -> bool {
    piece matches Some(tag) && tag.name == "sheetData"@
}

/// Whether the data of a sheet has begun before a piece.
pub open spec fn is_inside(pieces: Seq<Option<TagModel>>, at: int) -> bool {
    exists|i: int| 0 <= i < at && begins_data(#[trigger] pieces[i])
}

/// Whether what the start tags of a part say is such that its reader can work with it.
pub open spec fn part_fits(role: PartRole, part: Seq<u8>) -> bool {
    forall|i: int|
        0 <= i < part_tags(part).len() ==> (#[trigger] part_tags(part)[i] matches Some(tag)
            ==> tag_fits(role, is_inside(part_tags(part), i), tag))
}

/// Whether what the start tags of a part say is such that its reader can work with it.
pub fn is_small_part(role: PartRole, part: &Vec<u8>) -> (fits: bool)
    ensures
        fits == part_fits(role, part@),
{
    let mut reader = part_reader(part.as_slice());
    let ghost all = part_tags(part@);
    let ghost mut seen: int = 0;
    let mut inside = false;
    proof {
        assert(all.skip(0) =~= all);
    }
    loop
        invariant
            0 <= seen <= all.len(),
            all == part_tags(part@),
            unread_tags(reader) == all.skip(seen),
            inside == is_inside(all, seen),
            forall|k: int|
                0 <= k < seen ==> (#[trigger] all[k] matches Some(tag) ==> tag_fits(
                    role,
                    is_inside(all, k),
                    tag,
                )),
        decreases all.len() - seen,
    {
        match next_tag(&mut reader) {
            None => {
                return true;
            },
            Some(step) => {
                proof {
                    assert(all.skip(seen)[0] == all[seen]);
                    assert(all.skip(seen).skip(1) =~= all.skip(seen + 1));
                }
                if let Some(tag) = step {
                    if !is_small_tag(role, inside, &tag) {
                        return false;
                    }
                    if same_text(tag.name.as_str(), "sheetData") {
                        inside = true;
                    }
                    proof {
                        assert(begins_data(all[seen]) == (tag.name@ == "sheetData"@));
                    }
                } else {
                    proof {
                        assert(!begins_data(all[seen]));
                    }
                }
                proof {
                    assert(is_inside(all, seen + 1) == (is_inside(all, seen) || begins_data(
                        all[seen],
                    )));
                    seen = seen + 1;
                }
            },
        }
    }
}

// ---------------------------------------------------------------------------------
// Relationships
// ---------------------------------------------------------------------------------

/// A name with its backslashes read as slashes.
pub open spec fn with_slashes(name: Seq<char>) -> Seq<char> {
    name.map_values(
        |c: char|
            if c == '\\' {
                '/'
            } else {
                c
            },
    )
}

/// Whether a path ends like another, whatever its case and its slashes.
pub open spec fn ends_like(path: Seq<char>, ending: Seq<char>) -> bool {
    folded(with_slashes(ending)).is_suffix_of(folded(with_slashes(path)))
}

/// Whether one of some texts ends in the word for a sheet.
pub open spec fn names_sheet(values: Seq<Seq<char>>) -> bool {
    exists|i: int| 0 <= i < values.len() && "sheet"@.is_suffix_of(#[trigger] values[i])
}

/// What a piece of a part gives as the places of sheets.
pub open spec fn piece_targets(piece: Option<TagModel>) -> Seq<Seq<char>> {
    match piece {
        Some(tag) => if tag.name == "Relationship"@ && names_sheet(
            values_of(tag.attributes, "Type"@),
        ) {
            values_of(tag.attributes, "Target"@)
        } else {
            Seq::empty()
        },
        None => Seq::empty(),
    }
}

/// What the pieces of a part give as the places of sheets.
pub open spec fn targets_in(pieces: Seq<Option<TagModel>>) -> Seq<Seq<char>>
    decreases pieces.len(),
{
    if pieces.len() == 0 {
        Seq::empty()
    } else {
        targets_in(pieces.drop_last()) + piece_targets(pieces.last())
    }
}

/// What the parts with some names give as the places of sheets, if all those that hold
/// relationships can be unpacked.
pub open spec fn sheet_targets(bytes: Seq<u8>, names: Seq<Seq<char>>) -> Option<Seq<Seq<char>>>
    decreases names.len(),
{
    if names.len() == 0 {
        Some(Seq::empty())
    } else {
        match sheet_targets(bytes, names.drop_last()) {
            None => None,
            Some(before) => if ends_like(names.last(), ".rels"@) {
                match entry_bytes_of(bytes, names.last()) {
                    Ok(part) => Some(before + targets_in(part_tags(part))),
                    Err(_) => None,
                }
            } else {
                Some(before)
            },
        }
    }
}

/// The end of the path of a part, without a slash at its front.
pub open spec fn below_root(target: Seq<char>) -> Seq<char> {
    if target.len() > 0 && target[0] == '/' {
        target.skip(1)
    } else {
        target
    }
}

/// Whether a part may be read for something, given the places of sheets.
pub open spec fn has_role(role: PartRole, name: Seq<char>, targets: Seq<Seq<char>>) -> bool {
    match role {
        PartRole::Strings => ends_like(name, "sharedStrings.xml"@),
        PartRole::Styles => ends_like(name, "styles.xml"@),
        PartRole::Sheet => exists|i: int|
            0 <= i < targets.len() && ends_like(name, below_root(#[trigger] targets[i])),
    }
}

/// Whether a part that may be read for something can be unpacked, and is such that its
/// reader can work with it.
pub open spec fn role_fits(
    role: PartRole,
    bytes: Seq<u8>,
    name: Seq<char>,
    targets: Seq<Seq<char>>,
) -> bool {
    has_role(role, name, targets) ==> (entry_bytes_of(bytes, name) matches Ok(part) && part_fits(
        role,
        part,
    ))
}

/// Whether a part is such that its reader can work with it, whatever it is read for.
pub open spec fn entry_fits(bytes: Seq<u8>, name: Seq<char>, targets: Seq<Seq<char>>) -> bool {
    &&& role_fits(PartRole::Strings, bytes, name, targets)
    &&& role_fits(PartRole::Styles, bytes, name, targets)
    &&& role_fits(PartRole::Sheet, bytes, name, targets)
}

/// Whether the parts of a workbook that are read for their numbers are such that their
/// reader can work with them. Bytes that are no archive, or one whose names cannot be told,
/// have no parts.
pub open spec fn parts_fit(bytes: Seq<u8>) -> bool {
    archive_complaint(bytes) is Some || match entry_names_of(bytes) {
        Ok(names) => sheet_targets(bytes, names) matches Some(targets) && forall|i: int|
            0 <= i < names.len() ==> entry_fits(bytes, #[trigger] names[i], targets),
        Err(_) => true,
    }
}

/// A name with its backslashes read as slashes.
fn turn_slashes(name: &Vec<char>) -> (turned: Vec<char>)
    ensures
        turned@ == with_slashes(name@),
{
    let mut turned: Vec<char> = Vec::new();
    let mut i: usize = 0;
    proof {
        assert(with_slashes(name@.take(0)) =~= turned@);
    }
    while i < name.len()
        invariant
            i <= name.len(),
            turned@ == with_slashes(name@.take(i as int)),
        decreases name.len() - i,
    {
        proof {
            assert(with_slashes(name@.take(i + 1)) =~= with_slashes(name@.take(i as int)).push(
                if name@[i as int] == '\\' {
                    '/'
                } else {
                    name@[i as int]
                },
            ));
        }
        if name[i] == '\\' {
            turned.push('/');
        } else {
            turned.push(name[i]);
        }
        i = i + 1;
    }
    proof {
        assert(name@.take(name@.len() as int) =~= name@);
    }
    turned
}

/// Whether a path ends like another, whatever its case and its slashes.
fn is_ending(path: &Vec<char>, ending: &Vec<char>) -> (ends: bool)
    ensures
        ends == ends_like(path@, ending@),
{
    let long = fold_chars(&turn_slashes(path));
    let short = fold_chars(&turn_slashes(ending));
    if short.len() > long.len() {
        return false;
    }
    let from = long.len() - short.len();
    let mut i: usize = 0;
    while i < short.len()
        invariant
            i <= short.len(),
            long@ == folded(with_slashes(path@)),
            short@ == folded(with_slashes(ending@)),
            from + short.len() == long.len(),
            forall|k: int| 0 <= k < i ==> long@[from + k] == #[trigger] short@[k],
        decreases short.len() - i,
    {
        if long[from + i] != short[i] {
            proof {
                assert(long@.subrange(from as int, long@.len() as int)[i as int] == long@[from
                    + i]);
            }
            return false;
        }
        i = i + 1;
    }
    proof {
        assert(long@.subrange(from as int, long@.len() as int) =~= short@);
    }
    true
}

/// Whether one of some texts ends in the word for a sheet.
fn names_a_sheet(values: &Vec<Vec<char>>) -> (names: bool)
    ensures
        names == names_sheet(char_texts(values@)),
{
    let word = chars_of("sheet");
    let mut i: usize = 0;
    while i < values.len()
        invariant
            i <= values.len(),
            word@ == "sheet"@,
            forall|k: int|
                0 <= k < i ==> !("sheet"@.is_suffix_of(#[trigger] char_texts(values@)[k])),
        decreases values.len() - i,
    {
        let value = &values[i];
        proof {
            assert(char_texts(values@)[i as int] == value@);
        }
        if word.len() <= value.len() {
            let end = slice_of(value, value.len() - word.len(), value.len());
            if same_chars(&end, &word) {
                proof {
                    assert("sheet"@.is_suffix_of(char_texts(values@)[i as int]));
                }
                return true;
            }
        }
        i = i + 1;
    }
    false
}

/// What a start tag gives as the places of sheets.
fn tag_targets(tag: &XmlTag) -> (targets: Vec<Vec<char>>)
    ensures
        char_texts(targets@) == piece_targets(Some(tag@)),
{
    let attributes = tag.attributes.as_str();
    if same_text(tag.name.as_str(), "Relationship") && names_a_sheet(
        &all_values(attributes, "Type"),
    ) {
        all_values(attributes, "Target")
    } else {
        let none: Vec<Vec<char>> = Vec::new();
        proof {
            assert(char_texts(none@) =~= Seq::empty());
        }
        none
    }
}

/// Adds texts.
fn add_all(found: &mut Vec<Vec<char>>, more: Vec<Vec<char>>)
    ensures
        char_texts(final(found)@) == char_texts(old(found)@) + char_texts(more@),
{
    let ghost before = found@;
    let mut more = more;
    let ghost added = more@;
    found.append(&mut more);
    proof {
        assert(char_texts(found@) =~= char_texts(before) + char_texts(added));
    }
}

/// What a part gives as the places of sheets.
fn part_targets(part: &Vec<u8>) -> (targets: Vec<Vec<char>>)
    ensures
        char_texts(targets@) == targets_in(part_tags(part@)),
{
    let mut reader = part_reader(part.as_slice());
    let ghost all = part_tags(part@);
    let ghost mut seen: int = 0;
    let mut found: Vec<Vec<char>> = Vec::new();
    proof {
        assert(all.skip(0) =~= all);
        assert(all.take(0) =~= Seq::empty());
        assert(char_texts(found@) =~= Seq::empty());
    }
    loop
        invariant
            0 <= seen <= all.len(),
            all == part_tags(part@),
            unread_tags(reader) == all.skip(seen),
            char_texts(found@) == targets_in(all.take(seen)),
        decreases all.len() - seen,
    {
        match next_tag(&mut reader) {
            None => {
                proof {
                    assert(all.take(seen) =~= all);
                }
                return found;
            },
            Some(step) => {
                proof {
                    assert(all.skip(seen)[0] == all[seen]);
                    assert(all.skip(seen).skip(1) =~= all.skip(seen + 1));
                    assert(all.take(seen + 1).drop_last() =~= all.take(seen));
                    assert(all.take(seen + 1).last() == all[seen]);
                }
                match step {
                    Some(tag) => add_all(&mut found, tag_targets(&tag)),
                    None => {
                        proof {
                            assert(char_texts(found@) + Seq::empty() =~= char_texts(found@));
                        }
                    },
                }
                proof {
                    seen = seen + 1;
                }
            },
        }
    }
}

/// What the parts of an archive give as the places of sheets, if all those that hold
/// relationships can be unpacked.
fn archive_targets(archive: &mut ZipArchive<Cursor<Vec<u8>>>, names: &Vec<String>) -> (targets:
    Option<Vec<Vec<char>>>)
    ensures
        archive_bytes(*final(archive)) == archive_bytes(*old(archive)),
        match targets {
            Some(targets) => sheet_targets(archive_bytes(*old(archive)), texts(names@)) == Some(
                char_texts(targets@),
            ),
            None => sheet_targets(archive_bytes(*old(archive)), texts(names@)) is None,
        },
{
    let ghost bytes = archive_bytes(*archive);
    let ghost all = texts(names@);
    let mut found: Vec<Vec<char>> = Vec::new();
    let ending = chars_of(".rels");
    let mut i: usize = 0;
    proof {
        assert(all.take(0) =~= Seq::empty());
        assert(char_texts(found@) =~= Seq::empty());
    }
    while i < names.len()
        invariant
            i <= names.len(),
            all == texts(names@),
            ending@ == ".rels"@,
            bytes == archive_bytes(*old(archive)),
            archive_bytes(*archive) == bytes,
            sheet_targets(bytes, all.take(i as int)) == Some(char_texts(found@)),
        decreases names.len() - i,
    {
        proof {
            assert(all[i as int] == names@[i as int]@);
            assert(all.take(i + 1).drop_last() =~= all.take(i as int));
            assert(all.take(i + 1).last() == all[i as int]);
        }
        let name = names[i].as_str();
        if is_ending(&chars_of(name), &ending) {
            match entry_bytes(archive, name) {
                Ok(part) => add_all(&mut found, part_targets(&part)),
                Err(_) => {
                    proof {
                        lemma_targets_missing(bytes, all, i + 1);
                    }
                    return None;
                },
            }
        }
        i = i + 1;
    }
    proof {
        assert(all.take(all.len() as int) =~= all);
    }
    Some(found)
}

/// Once the places of sheets cannot be told, further names do not help.
proof fn lemma_targets_missing(bytes: Seq<u8>, names: Seq<Seq<char>>, n: int)
    requires
        0 <= n <= names.len(),
        sheet_targets(bytes, names.take(n)) is None,
    ensures
        sheet_targets(bytes, names) is None,
    decreases names.len(),
{
    if n == names.len() {
        assert(names.take(n) =~= names);
    } else {
        assert(names.drop_last().take(n) =~= names.take(n));
        lemma_targets_missing(bytes, names.drop_last(), n);
    }
}

/// The end of the path of a part, without a slash at its front.
fn without_root(target: &Vec<char>) -> (path: Vec<char>)
    ensures
        path@ == below_root(target@),
{
    if target.len() > 0 && target[0] == '/' {
        let path = slice_of(target, 1, target.len());
        proof {
            assert(path@ =~= target@.skip(1));
        }
        path
    } else {
        let path = slice_of(target, 0, target.len());
        proof {
            assert(path@ =~= target@);
        }
        path
    }
}

/// Whether a part may be read for something, given the places of sheets.
fn may_have_role(role: PartRole, name: &str, targets: &Vec<Vec<char>>) -> (has: bool)
    ensures
        has == has_role(role, name@, char_texts(targets@)),
{
    let path = chars_of(name);
    match role {
        PartRole::Strings => is_ending(&path, &chars_of("sharedStrings.xml")),
        PartRole::Styles => is_ending(&path, &chars_of("styles.xml")),
        PartRole::Sheet => {
            let mut i: usize = 0;
            while i < targets.len()
                invariant
                    i <= targets.len(),
                    role == PartRole::Sheet,
                    path@ == name@,
                    forall|k: int|
                        0 <= k < i ==> !ends_like(
                            name@,
                            below_root(#[trigger] char_texts(targets@)[k]),
                        ),
                decreases targets.len() - i,
            {
                proof {
                    assert(char_texts(targets@)[i as int] == targets@[i as int]@);
                }
                if is_ending(&path, &without_root(&targets[i])) {
                    return true;
                }
                i = i + 1;
            }
            false
        },
    }
}

/// Whether a part that may be read for something can be unpacked, and is such that its
/// reader can work with it.
fn fits_role(
    role: PartRole,
    archive: &mut ZipArchive<Cursor<Vec<u8>>>,
    name: &str,
    targets: &Vec<Vec<char>>,
) -> (fits: bool)
    ensures
        archive_bytes(*final(archive)) == archive_bytes(*old(archive)),
        fits == role_fits(role, archive_bytes(*old(archive)), name@, char_texts(targets@)),
{
    if !may_have_role(role, name, targets) {
        return true;
    }
    match entry_bytes(archive, name) {
        Ok(part) => is_small_part(role, &part),
        Err(_) => false,
    }
}

/// Whether the parts of a workbook that are read for their numbers are such that their
/// reader can work with them.
pub fn has_small_parts(bytes: &Vec<u8>) -> (fits: bool)
    ensures
        fits == parts_fit(bytes@),
{
    let copy = bytes.clone();
    proof {
        assert(copy@ =~= bytes@);
    }
    let mut archive = match open_archive(copy) {
        Ok(archive) => archive,
        Err(_) => {
            return true;
        },
    };
    let names = match entry_names(&archive) {
        Ok(names) => names,
        Err(_) => {
            return true;
        },
    };
    let targets = match archive_targets(&mut archive, &names) {
        Some(targets) => targets,
        None => {
            return false;
        },
    };
    let ghost all = texts(names@);
    let mut i: usize = 0;
    while i < names.len()
        invariant
            i <= names.len(),
            all == texts(names@),
            archive_bytes(archive) == bytes@,
            archive_complaint(bytes@) is None,
            entry_names_of(bytes@) == Ok::<Seq<Seq<char>>, Seq<char>>(all),
            sheet_targets(bytes@, all) == Some(char_texts(targets@)),
            forall|k: int|
                0 <= k < i ==> entry_fits(bytes@, #[trigger] all[k], char_texts(targets@)),
        decreases names.len() - i,
    {
        proof {
            assert(all[i as int] == names@[i as int]@);
        }
        let name = names[i].as_str();
        if !fits_role(PartRole::Strings, &mut archive, name, &targets) || !fits_role(
            PartRole::Styles,
            &mut archive,
            name,
            &targets,
        ) || !fits_role(PartRole::Sheet, &mut archive, name, &targets) {
            proof {
                assert(entry_names_of(bytes@)->Ok_0 == all);
                assert(!entry_fits(bytes@, all[i as int], char_texts(targets@)));
            }
            return false;
        }
        i = i + 1;
    }
    true
}

// ---------------------------------------------------------------------------------
// Kinds of workbooks
// ---------------------------------------------------------------------------------

/// The eight bytes with which a compound file begins.
pub open spec fn compound_signature() -> Seq<u8> {
    seq![0xd0u8, 0xcfu8, 0x11u8, 0xe0u8, 0xa1u8, 0xb1u8, 0x1au8, 0xe1u8]
}

/// How many bytes the header of a compound file has.
pub const COMPOUND_HEADER: usize = 512;

/// Whether bytes are those of a compound file: an old workbook, or an encrypted one.
pub open spec fn is_compound(bytes: Seq<u8>) -> bool {
    bytes.len() >= COMPOUND_HEADER && bytes.take(8) == compound_signature()
}

/// Whether bytes are those of a compound file.
pub fn is_compound_file(bytes: &Vec<u8>) -> (compound: bool)
    ensures
        compound == is_compound(bytes@),
{
    if bytes.len() < COMPOUND_HEADER {
        return false;
    }
    let same = bytes[0] == 0xd0 && bytes[1] == 0xcf && bytes[2] == 0x11 && bytes[3] == 0xe0
        && bytes[4] == 0xa1 && bytes[5] == 0xb1 && bytes[6] == 0x1a && bytes[7] == 0xe1;
    proof {
        let head = bytes@.take(8);
        if same {
            assert(head =~= compound_signature());
        } else {
            assert(head[0] == bytes@[0] && head[1] == bytes@[1] && head[2] == bytes@[2] && head[3]
                == bytes@[3] && head[4] == bytes@[4] && head[5] == bytes@[5] && head[6]
                == bytes@[6] && head[7] == bytes@[7]);
        }
    }
    same
}

/// Whether a part with this name is one of a binary workbook or of an open document.
pub open spec fn is_of_other_kind(name: Seq<char>) -> bool {
    ||| name == "mimetype"@
    ||| folded(with_slashes(name)) == folded("xl/workbook.bin"@)
    ||| folded(with_slashes(name)) == folded("xl/styles.bin"@)
    ||| folded(with_slashes(name)) == folded("xl/sharedStrings.bin"@)
}

/// Whether no part of a workbook is one of a binary workbook or of an open document.
pub open spec fn is_of_one_kind(bytes: Seq<u8>) -> bool {
    archive_complaint(bytes) is Some || match entry_names_of(bytes) {
        Ok(names) => forall|i: int| 0 <= i < names.len() ==> !is_of_other_kind(#[trigger] names[i]),
        Err(_) => true,
    }
}

/// Whether a part with this name is one of a binary workbook or of an open document.
fn names_other_kind(name: &str) -> (names: bool)
    ensures
        names == is_of_other_kind(name@),
{
    let turned = turn_slashes(&chars_of(name));
    let path = string_of(&turned);
    same_text(name, "mimetype") || equal_ignoring_case(path.as_str(), "xl/workbook.bin")
        || equal_ignoring_case(path.as_str(), "xl/styles.bin") || equal_ignoring_case(
        path.as_str(),
        "xl/sharedStrings.bin",
    )
}

/// Whether no part of a workbook is one of a binary workbook or of an open document.
pub fn has_one_kind(bytes: &Vec<u8>) -> (one: bool)
    ensures
        one == is_of_one_kind(bytes@),
{
    let copy = bytes.clone();
    proof {
        assert(copy@ =~= bytes@);
    }
    let archive = match open_archive(copy) {
        Ok(archive) => archive,
        Err(_) => {
            return true;
        },
    };
    let names = match entry_names(&archive) {
        Ok(names) => names,
        Err(_) => {
            return true;
        },
    };
    let ghost all = texts(names@);
    let mut i: usize = 0;
    while i < names.len()
        invariant
            i <= names.len(),
            all == texts(names@),
            archive_complaint(bytes@) is None,
            entry_names_of(bytes@) == Ok::<Seq<Seq<char>>, Seq<char>>(all),
            forall|k: int| 0 <= k < i ==> !is_of_other_kind(#[trigger] all[k]),
        decreases names.len() - i,
    {
        proof {
            assert(all[i as int] == names@[i as int]@);
        }
        if names_other_kind(names[i].as_str()) {
            proof {
                assert(entry_names_of(bytes@)->Ok_0 == all);
                assert(is_of_other_kind(all[i as int]));
            }
            return false;
        }
        i = i + 1;
    }
    true
}

// ---------------------------------------------------------------------------------
// Laws
// ---------------------------------------------------------------------------------

/// What can be read at a place is found from every place before it.
proof fn lemma_value_is_found(attributes: Seq<char>, name: Seq<char>, from: nat, at: int)
    requires
        from <= at < attributes.len(),
        value_at(attributes, name, at) is Some,
    ensures
        values_from(attributes, name, from).contains(value_at(attributes, name, at)->0),
    decreases attributes.len() - from,
{
    let found = values_from(attributes, name, from);
    let value = value_at(attributes, name, at)->0;
    if from == at {
        assert(found[0] == value);
    } else {
        lemma_value_is_found(attributes, name, from + 1, at);
        let rest = values_from(attributes, name, from + 1);
        let i = choose|i: int| 0 <= i < rest.len() && rest[i] == value;
        if value_at(attributes, name, from as int) is Some {
            assert(found[i + 1] == value);
        } else {
            assert(found[i] == value);
        }
    }
}

/// The value of an attribute is found wherever the attribute stands.
pub proof fn law_attribute_values_are_found(
    before: Seq<char>,
    name: Seq<char>,
    value: Seq<char>,
    after: Seq<char>,
)
    requires
        name.len() > 0,
        forall|i: int| 0 <= i < value.len() ==> #[trigger] value[i] != '"',
    ensures
        values_of(before + name + seq!['=', '"'] + value + seq!['"'] + after, name).contains(value),
{
    let all = before + name + seq!['=', '"'] + value + seq!['"'] + after;
    let at = before.len() as int;
    assert(all.subrange(at, at + name.len()) =~= name);
    let rest = all.skip(at + name.len());
    assert(rest[0] == '=');
    assert(!spaces()(rest[0]));
    assert(strip_start(rest, spaces()) == rest);
    let opened = rest.skip(1);
    assert(opened[0] == '"');
    assert(!spaces()(opened[0]));
    assert(strip_start(opened, spaces()) == opened);
    let inner = opened.skip(1);
    assert(inner =~= value + seq!['"'] + after);
    assert forall|i: int| 0 <= i < value.len() implies !#[trigger] only('"')(inner[i]) by {
        assert(inner[i] == value[i]);
    }
    assert(only('"')(inner[value.len() as int]));
    lemma_run_ends(inner, only('"'), value.len());
    assert(inner.take(value.len() as int) =~= value);
    lemma_value_is_found(all, name, 0, at);
}

/// Letters name columns in twenty-sixes, whatever their case, and digits are numbers in
/// tens.
pub proof fn law_references_count(letters: Seq<char>, letter: char, digits: Seq<char>, digit: char)
    requires
        is_letter(letter),
        is_digit(digit),
    ensures
        column(Seq::empty()) == 0,
        column(letters.push(letter)) == 26 * column(letters) + (if letter <= 'Z' {
            letter as int - 'A' as int + 1
        } else {
            letter as int - 'a' as int + 1
        }),
        number(Seq::empty()) == 0,
        number(digits.push(digit)) == 10 * number(digits) + (digit as int - '0' as int),
{
    assert(letters.push(letter).drop_last() =~= letters);
    assert(digits.push(digit).drop_last() =~= digits);
}

/// A reference fits where its column is no further than the last one of three letters and
/// its row has no more than seven digits' worth.
pub proof fn law_references_are_bounded(name: Seq<char>, row: Seq<char>)
    requires
        forall|i: int| 0 <= i < name.len() ==> is_letter(#[trigger] name[i]),
        forall|i: int| 0 <= i < row.len() ==> is_digit(#[trigger] row[i]),
    ensures
        reference_fits(name + row) <==> column(name) <= 18_278 && number(row) <= 9_999_999,
        count_fits(row) <==> number(row) <= 9_999_999,
{
    let text = name + row;
    let n = name.len();
    assert forall|i: int| 0 <= i < n implies !#[trigger] no_letter()(text[i]) by {
        assert(text[i] == name[i]);
    }
    if row.len() > 0 {
        assert(is_digit(row[0]));
        assert(text[n as int] == row[0]);
        assert(no_letter()(text[n as int]));
    }
    lemma_run_ends(text, no_letter(), n);
    assert(letters(text) =~= name);
    assert(text.skip(n as int) =~= row);
    assert forall|i: int| 0 <= i < row.len() implies !#[trigger] no_digit()(row[i]) by {
        assert(is_digit(row[i]));
    }
    lemma_run_ends(row, no_digit(), row.len());
    assert(digits(row) =~= row);
}

/// A compound file is known by its first eight bytes, if there is a header.
pub proof fn law_compound_files_are_known(bytes: Seq<u8>)
    ensures
        is_compound(bytes) <==> {
            &&& bytes.len() >= 512
            &&& bytes[0] == 0xd0 && bytes[1] == 0xcf && bytes[2] == 0x11 && bytes[3] == 0xe0
            &&& bytes[4] == 0xa1 && bytes[5] == 0xb1 && bytes[6] == 0x1a && bytes[7] == 0xe1
        },
{
    if bytes.len() >= 512 {
        let head = bytes.take(8);
        assert(head[0] == bytes[0] && head[1] == bytes[1] && head[2] == bytes[2]);
        assert(head[3] == bytes[3] && head[4] == bytes[4] && head[5] == bytes[5]);
        assert(head[6] == bytes[6] && head[7] == bytes[7]);
        if bytes[0] == 0xd0 && bytes[1] == 0xcf && bytes[2] == 0x11 && bytes[3] == 0xe0 && bytes[4]
            == 0xa1 && bytes[5] == 0xb1 && bytes[6] == 0x1a && bytes[7] == 0xe1 {
            assert(head =~= compound_signature());
        }
    }
}

} // verus!
