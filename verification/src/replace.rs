//! Replacing a term in a text without regard to case.
use crate::text::{occurs, occurs_at, optional_text};
use vstd::prelude::*;
use vstd::string::*;
use vstd::utf8::*;

verus! {

/// The lower-case form of a text, as `str::to_lowercase` gives it.
pub uninterp spec fn lowercase(text: Seq<char>) -> Seq<char>;

/// `str::to_lowercase` gives the lower-case form of a text, which the text alone
/// decides.
#[verifier::external_body]
pub(crate) fn to_lowercase(text: &str) -> (lower: String)
    ensures
        lower@ == lowercase(text@),
{
    text.to_lowercase()
}

/// The first place at or after `from` where `needle` stands in `hay`.
pub open spec fn next_place(hay: Seq<u8>, needle: Seq<u8>, from: nat) -> Option<nat>
    decreases hay.len() + 1 - from,
{
    if from + needle.len() > hay.len() {
        None
    } else if occurs_at(hay, needle, from as int) {
        Some(from)
    } else {
        next_place(hay, needle, from + 1)
    }
}

/// Whether a term of `width` bytes can be taken out of `text` at `start`.
pub open spec fn is_cuttable(text: Seq<u8>, start: nat, width: nat) -> bool {
    is_char_boundary(text, start as int) && is_char_boundary(text, (start + width) as int)
}

/// The text from `cursor` on with the term replaced: wherever `lower_needle` stands
/// in `lower`, `width` bytes of `text` give way to `replacement`, up to the first
/// place where that would cut a character.
pub open spec fn replaced(
    text: Seq<u8>,
    lower: Seq<u8>,
    width: nat,
    lower_needle: Seq<u8>,
    replacement: Seq<u8>,
    cursor: nat,
) -> Seq<u8>
    decreases (if cursor <= lower.len() {
            lower.len() + 1 - cursor
        } else {
            0
        }),
    via replaced_decreases
{
    if width == 0 {
        text.skip(cursor as int)
    } else {
        match next_place(lower, lower_needle, cursor) {
            Some(start) => if is_cuttable(text, start, width) {
                text.subrange(cursor as int, start as int) + replacement + replaced(
                    text,
                    lower,
                    width,
                    lower_needle,
                    replacement,
                    start + width,
                )
            } else {
                text.skip(cursor as int)
            },
            None => text.skip(cursor as int),
        }
    }
}

#[via_fn]
proof fn replaced_decreases(
    text: Seq<u8>,
    lower: Seq<u8>,
    width: nat,
    lower_needle: Seq<u8>,
    replacement: Seq<u8>,
    cursor: nat,
) {
    lemma_next_place(lower, lower_needle, cursor);
}

/// Whether the search for the term never has to go on inside a character of `lower`.
pub open spec fn is_searchable(
    text: Seq<u8>,
    lower: Seq<u8>,
    width: nat,
    lower_needle: Seq<u8>,
    cursor: nat,
) -> bool
    decreases (if cursor <= lower.len() {
            lower.len() + 1 - cursor
        } else {
            0
        }),
    via is_searchable_decreases
{
    is_char_boundary(lower, cursor as int) && (width > 0 ==> match next_place(
        lower,
        lower_needle,
        cursor,
    ) {
        Some(start) => is_cuttable(text, start, width) ==> is_searchable(
            text,
            lower,
            width,
            lower_needle,
            start + width,
        ),
        None => true,
    })
}

#[via_fn]
proof fn is_searchable_decreases(
    text: Seq<u8>,
    lower: Seq<u8>,
    width: nat,
    lower_needle: Seq<u8>,
    cursor: nat,
) {
    lemma_next_place(lower, lower_needle, cursor);
}

/// The next place is at or after `from`, holds the needle, and is the first such one.
proof fn lemma_next_place(hay: Seq<u8>, needle: Seq<u8>, from: nat)
    ensures
        match next_place(hay, needle, from) {
            Some(at) => from <= at && occurs_at(hay, needle, at as int) && (forall|k: int|
                from <= k < at ==> !occurs_at(hay, needle, k)),
            None => forall|k: int| from <= k ==> !occurs_at(hay, needle, k),
        },
    decreases hay.len() + 1 - from,
{
    if from + needle.len() <= hay.len() && !occurs_at(hay, needle, from as int) {
        lemma_next_place(hay, needle, from + 1);
    }
}

/// Whether `needle` stands in `hay` at `at`.
fn bytes_at(hay: &[u8], needle: &[u8], at: usize) -> (found: bool)
    requires
        at + needle.len() <= hay.len(),
    ensures
        found == occurs_at(hay@, needle@, at as int),
{
    let mut i: usize = 0;
    while i < needle.len()
        invariant
            i <= needle.len(),
            at + needle.len() <= hay.len(),
            forall|k: int| 0 <= k < i ==> hay@[at + k] == needle@[k],
        decreases needle@.len() - i,
    {
        if hay[at + i] != needle[i] {
            proof {
                assert(hay@.subrange(at as int, at + needle@.len())[i as int] != needle@[i as int]);
            }
            return false;
        }
        i = i + 1;
    }
    proof {
        assert(hay@.subrange(at as int, at + needle@.len()) =~= needle@);
    }
    true
}

/// The first place at or after `from` where `needle` stands in `hay`.
fn find_bytes(hay: &[u8], needle: &[u8], from: usize) -> (place: Option<usize>)
    requires
        from <= hay@.len(),
    ensures
        match place {
            Some(at) => next_place(hay@, needle@, from as nat) == Some(at as nat),
            None => next_place(hay@, needle@, from as nat) is None,
        },
{
    let mut at: usize = from;
    while needle.len() <= hay.len() - at
        invariant
            from <= at <= hay@.len(),
            next_place(hay@, needle@, at as nat) == next_place(hay@, needle@, from as nat),
        decreases hay@.len() - at,
    {
        if bytes_at(hay, needle, at) {
            return Some(at);
        }
        if at == hay.len() {
            proof {
                assert(next_place(hay@, needle@, (at + 1) as nat) is None);
            }
            return None;
        }
        at = at + 1;
    }
    None
}

/// A boundary of a text is one of the text that is left after an earlier boundary.
proof fn lemma_boundary_of_rest(bytes: Seq<u8>, from: int, to: int)
    requires
        valid_utf8(bytes),
        is_char_boundary(bytes, from),
        is_char_boundary(bytes, to),
        0 <= from <= to <= bytes.len(),
    ensures
        valid_utf8(bytes.subrange(from, bytes.len() as int)),
        is_char_boundary(bytes.subrange(from, bytes.len() as int), to - from),
{
    let rest = bytes.subrange(from, bytes.len() as int);
    valid_utf8_split(bytes, from);
    if to == bytes.len() {
        is_char_boundary_start_end_of_seq(rest);
    } else {
        is_char_boundary_iff_not_is_continuation_byte(bytes, to);
        is_char_boundary_iff_not_is_continuation_byte(rest, to - from);
        assert(rest[to - from] == bytes[to]);
    }
}

/// A boundary lies within the text.
proof fn lemma_boundary_in_range(bytes: Seq<u8>, index: int)
    requires
        valid_utf8(bytes),
        is_char_boundary(bytes, index),
    ensures
        0 <= index <= bytes.len(),
{
}

/// The encoding of two texts, one after the other, is their encodings, one after the
/// other.
pub proof fn lemma_encode_concat(left: Seq<char>, right: Seq<char>)
    ensures
        encode_utf8(left + right) == encode_utf8(left) + encode_utf8(right),
    decreases left.len(),
{
    if left.len() == 0 {
        assert(left + right =~= right);
        assert(encode_utf8(left) =~= Seq::empty());
        assert(Seq::<u8>::empty() + encode_utf8(right) =~= encode_utf8(right));
    } else {
        lemma_encode_concat(left.drop_first(), right);
        assert((left + right).drop_first() =~= left.drop_first() + right);
        let head = encode_scalar(left[0] as u32);
        assert(encode_utf8(left + right) =~= head + encode_utf8(left.drop_first() + right));
        assert(encode_utf8(left) =~= head + encode_utf8(left.drop_first()));
        assert(head + (encode_utf8(left.drop_first()) + encode_utf8(right)) =~= head + encode_utf8(
            left.drop_first(),
        ) + encode_utf8(right));
    }
}

/// The text that results from putting `replacement` for `needle` in `text`, given the
/// lower-case forms of both. There is none where the search would have to go on inside
/// a character of the lower-case text.
pub open spec fn replacement_of(
    text: Seq<char>,
    lower: Seq<char>,
    needle: Seq<char>,
    lower_needle: Seq<char>,
    replacement: Seq<char>,
) -> Option<Seq<char>> {
    let bytes = encode_utf8(text);
    let low = encode_utf8(lower);
    let width = encode_utf8(needle).len();
    let low_needle = encode_utf8(lower_needle);
    if is_searchable(bytes, low, width, low_needle, 0) {
        Some(
            decode_utf8(replaced(bytes, low, width, low_needle, encode_utf8(replacement), 0)),
        )
    } else {
        None
    }
}

/// Puts `replacement` for `needle` in `text` wherever `lower_needle` stands in
/// `lower`.
pub fn replace_lowered(
    text: &str,
    lower: &str,
    needle: &str,
    lower_needle: &str,
    replacement: &str,
) -> (outcome: Option<String>)
    ensures
        optional_text(outcome) == replacement_of(
            text@,
            lower@,
            needle@,
            lower_needle@,
            replacement@,
        ),
{
    let bytes = text.as_bytes();
    let low = lower.as_bytes();
    let low_needle = lower_needle.as_bytes();
    let width: usize = needle.as_bytes().len();
    let ghost new = replacement.spec_bytes();
    proof {
        encode_utf8_valid_utf8(text@);
        encode_utf8_valid_utf8(lower@);
        is_char_boundary_start_end_of_seq(bytes@);
        is_char_boundary_start_end_of_seq(low@);
        assert(bytes@.skip(0) =~= bytes@);
    }
    if width == 0 {
        proof {
            encode_utf8_decode_utf8(text@);
        }
        return Some(text.to_owned());
    }
    let mut result = String::new();
    let mut rest: &str = text;
    let mut cursor: usize = 0;
    proof {
        assert(encode_utf8(result@) =~= Seq::<u8>::empty());
        assert(encode_utf8(result@) + replaced(bytes@, low@, width as nat, low_needle@, new, 0)
            =~= replaced(bytes@, low@, width as nat, low_needle@, new, 0));
    }
    loop
        invariant
            0 < width,
            bytes@ == text.spec_bytes(),
            low@ == lower.spec_bytes(),
            low_needle@ == lower_needle.spec_bytes(),
            width == needle.spec_bytes().len(),
            new == replacement.spec_bytes(),
            valid_utf8(bytes@),
            valid_utf8(low@),
            cursor <= bytes.len(),
            is_char_boundary(bytes@, cursor as int),
            rest.spec_bytes() == bytes@.skip(cursor as int),
            encode_utf8(result@) + replaced(
                bytes@,
                low@,
                width as nat,
                low_needle@,
                new,
                cursor as nat,
            ) == replaced(bytes@, low@, width as nat, low_needle@, new, 0),
            is_searchable(bytes@, low@, width as nat, low_needle@, cursor as nat) == is_searchable(
                bytes@,
                low@,
                width as nat,
                low_needle@,
                0,
            ),
        decreases bytes.len() - cursor,
    {
        if !lower.is_char_boundary(cursor) {
            return None;
        }
        proof {
            lemma_boundary_in_range(low@, cursor as int);
            lemma_next_place(low@, low_needle@, cursor as nat);
        }
        let found = find_bytes(low, low_needle, cursor);
        let start = match found {
            Some(start) => start,
            None => {
                proof {
                    lemma_encode_concat(result@, rest@);
                    encode_utf8_decode_utf8(result@ + rest@);
                }
                result.append(rest);
                return Some(result);
            },
        };
        let cuttable = text.is_char_boundary(start) && start <= bytes.len() && width <= bytes.len()
            - start && text.is_char_boundary(start + width);
        proof {
            if is_cuttable(bytes@, start as nat, width as nat) {
                lemma_boundary_in_range(bytes@, start as int);
                lemma_boundary_in_range(bytes@, start + width);
            }
            assert(cuttable == is_cuttable(bytes@, start as nat, width as nat));
        }
        if !cuttable {
            proof {
                lemma_encode_concat(result@, rest@);
                encode_utf8_decode_utf8(result@ + rest@);
            }
            result.append(rest);
            return Some(result);
        }
        proof {
            lemma_boundary_of_rest(bytes@, cursor as int, start as int);
            lemma_boundary_of_rest(bytes@, start as int, start + width);
            assert(bytes@.skip(cursor as int) =~= bytes@.subrange(
                cursor as int,
                bytes@.len() as int,
            ));
        }
        let (before, tail) = rest.split_at(start - cursor);
        proof {
            assert(before.spec_bytes() =~= bytes@.subrange(cursor as int, start as int));
            assert(tail.spec_bytes() =~= bytes@.subrange(start as int, bytes@.len() as int));
        }
        let (_, after) = tail.split_at(width);
        proof {
            assert(after.spec_bytes() =~= bytes@.skip(start + width));
            lemma_encode_concat(result@, before@);
            lemma_encode_concat(result@ + before@, replacement@);
            let later = replaced(
                bytes@,
                low@,
                width as nat,
                low_needle@,
                new,
                (start + width) as nat,
            );
            assert(encode_utf8(result@) + encode_utf8(before@) + new + later =~= encode_utf8(
                result@,
            ) + (encode_utf8(before@) + new + later));
        }
        result.append(before);
        result.append(replacement);
        rest = after;
        cursor = start + width;
    }
}

/// Puts `replacement` for every occurrence of `needle` in `text`, without regard to
/// case. `None` where the lower-case text cannot be searched.
pub fn replace_case_insensitive(text: &str, needle: &str, replacement: &str) -> (outcome: Option<
    String,
>)
    ensures
        optional_text(outcome) == replacement_of(
            text@,
            lowercase(text@),
            needle@,
            lowercase(needle@),
            replacement@,
        ),
{
    let lower = to_lowercase(text);
    let lower_needle = to_lowercase(needle);
    replace_lowered(text, lower.as_str(), needle, lower_needle.as_str(), replacement)
}

/// A text in which the needle does not stand stays as it is.
pub proof fn law_absent_needle_changes_nothing(
    text: Seq<char>,
    lower: Seq<char>,
    needle: Seq<char>,
    lower_needle: Seq<char>,
    replacement: Seq<char>,
)
    requires
        !occurs(encode_utf8(lower), encode_utf8(lower_needle)),
    ensures
        replacement_of(text, lower, needle, lower_needle, replacement) == Some(text),
{
    lemma_next_place(encode_utf8(lower), encode_utf8(lower_needle), 0);
    if let Some(at) = next_place(encode_utf8(lower), encode_utf8(lower_needle), 0) {
        assert(occurs_at(encode_utf8(lower), encode_utf8(lower_needle), at as int));
    }
    encode_utf8_valid_utf8(lower);
    is_char_boundary_start_end_of_seq(encode_utf8(lower));
    assert(encode_utf8(text).skip(0) =~= encode_utf8(text));
    encode_utf8_decode_utf8(text);
}

/// The text from `cursor` on with `width` bytes at each of some places giving way.
pub open spec fn woven(
    text: Seq<u8>,
    places: Seq<nat>,
    width: nat,
    replacement: Seq<u8>,
    cursor: nat,
) -> Seq<u8>
    decreases places.len(),
{
    if places.len() == 0 {
        text.skip(cursor as int)
    } else {
        text.subrange(cursor as int, places[0] as int) + replacement + woven(
            text,
            places.skip(1),
            width,
            replacement,
            places[0] + width,
        )
    }
}

/// Whether places are all those, from `cursor` on and without overlaps, where the term
/// stands.
pub open spec fn are_all_places(
    hay: Seq<u8>,
    needle: Seq<u8>,
    width: nat,
    cursor: nat,
    places: Seq<nat>,
) -> bool {
    &&& forall|i: int|
        0 <= i < places.len() ==> cursor <= #[trigger] places[i] && occurs_at(
            hay,
            needle,
            places[i] as int,
        )
    &&& forall|i: int, j: int|
        0 <= i < j < places.len() ==> #[trigger] places[i] + width <= #[trigger] places[j]
    &&& forall|k: int|
        cursor <= k && #[trigger] occurs_at(hay, needle, k) ==> exists|i: int|
            0 <= i < places.len() && #[trigger] places[i] <= k < places[i] + width
}

/// The places of a term, from the front on.
proof fn lemma_places(
    text: Seq<u8>,
    lower: Seq<u8>,
    width: nat,
    lower_needle: Seq<u8>,
    replacement: Seq<u8>,
    cursor: nat,
) -> (places: Seq<nat>)
    requires
        width > 0,
        forall|k: int|
            cursor <= k && #[trigger] occurs_at(lower, lower_needle, k) ==> is_cuttable(
                text,
                k as nat,
                width,
            ),
    ensures
        are_all_places(lower, lower_needle, width, cursor, places),
        replaced(text, lower, width, lower_needle, replacement, cursor) == woven(
            text,
            places,
            width,
            replacement,
            cursor,
        ),
    decreases (if cursor <= lower.len() {
            lower.len() + 1 - cursor
        } else {
            0
        }),
{
    lemma_next_place(lower, lower_needle, cursor);
    match next_place(lower, lower_needle, cursor) {
        None => Seq::empty(),
        Some(start) => {
            assert(occurs_at(lower, lower_needle, start as int));
            let rest = lemma_places(
                text,
                lower,
                width,
                lower_needle,
                replacement,
                start + width,
            );
            let places = seq![start] + rest;
            assert(places.skip(1) =~= rest);
            assert forall|i: int| 0 <= i < places.len() implies cursor <= #[trigger] places[i]
                && occurs_at(lower, lower_needle, places[i] as int) by {
                if i > 0 {
                    assert(places[i] == rest[i - 1]);
                }
            }
            assert forall|i: int, j: int| 0 <= i < j < places.len() implies #[trigger] places[i]
                + width <= #[trigger] places[j] by {
                assert(places[j] == rest[j - 1]);
                if i > 0 {
                    assert(places[i] == rest[i - 1]);
                }
            }
            assert forall|k: int| cursor <= k && #[trigger] occurs_at(lower, lower_needle, k)
                implies exists|i: int|
                0 <= i < places.len() && #[trigger] places[i] <= k < places[i] + width by {
                if k < start + width {
                    assert(places[0] <= k < places[0] + width);
                } else {
                    let i = choose|i: int|
                        0 <= i < rest.len() && #[trigger] rest[i] <= k < rest[i] + width;
                    assert(places[i + 1] == rest[i]);
                }
            }
            places
        },
    }
}

/// A term gives way wherever it stands, and nothing else does: what comes out is the text
/// with the replacement in the place of every stretch where the term stands, from the front
/// on, as long as no such place lies inside a character of the text.
pub proof fn law_every_place_gives_way(
    text: Seq<u8>,
    lower: Seq<u8>,
    width: nat,
    lower_needle: Seq<u8>,
    replacement: Seq<u8>,
)
    requires
        width > 0,
        forall|k: int|
            0 <= k && #[trigger] occurs_at(lower, lower_needle, k) ==> is_cuttable(
                text,
                k as nat,
                width,
            ),
    ensures
        exists|places: Seq<nat>|
            #[trigger] are_all_places(lower, lower_needle, width, 0, places) && replaced(
                text,
                lower,
                width,
                lower_needle,
                replacement,
                0,
            ) == woven(text, places, width, replacement, 0),
{
    let places = lemma_places(text, lower, width, lower_needle, replacement, 0);
    assert(are_all_places(lower, lower_needle, width, 0, places));
}

/// What a term gives way to is put in as it is: a text that is the term, whatever its case,
/// becomes the replacement.
pub proof fn law_whole_text_gives_way(
    text: Seq<char>,
    lower: Seq<char>,
    replacement: Seq<char>,
)
    requires
        text.len() > 0,
        encode_utf8(text).len() == encode_utf8(lower).len(),
    ensures
        replacement_of(text, lower, text, lower, replacement) == Some(replacement),
{
    let bytes = encode_utf8(text);
    let low = encode_utf8(lower);
    let width = bytes.len();
    encode_utf8_valid_utf8(text);
    encode_utf8_valid_utf8(lower);
    is_char_boundary_start_end_of_seq(bytes);
    is_char_boundary_start_end_of_seq(low);
    let head = encode_scalar(text[0] as u32);
    assert(bytes =~= head + encode_utf8(text.drop_first()));
    assert(head.len() > 0);
    assert(occurs_at(low, low, 0)) by {
        assert(low.subrange(0, low.len() as int) =~= low);
    }
    assert(next_place(low, low, 0) == Some(0nat));
    assert(next_place(low, low, width) is None);
    let new = encode_utf8(replacement);
    assert(bytes.subrange(0, 0) =~= Seq::empty());
    assert(bytes.skip(width as int) =~= Seq::empty());
    assert(replaced(bytes, low, width, low, new, width) =~= Seq::empty());
    assert(replaced(bytes, low, width, low, new, 0) =~= new);
    assert(is_searchable(bytes, low, width, low, width));
    assert(is_searchable(bytes, low, width, low, 0));
    encode_utf8_decode_utf8(replacement);
}

/// What comes of putting a replacement for a term in a text is the text with the
/// replacement in the place of every stretch where the lower-case form of the term stands
/// in that of the text, each as long as the term, from the front on.
pub proof fn law_every_term_gives_way(
    text: Seq<char>,
    lower: Seq<char>,
    needle: Seq<char>,
    lower_needle: Seq<char>,
    replacement: Seq<char>,
)
    requires
        encode_utf8(needle).len() > 0,
        forall|k: int|
            0 <= k && #[trigger] occurs_at(encode_utf8(lower), encode_utf8(lower_needle), k)
                ==> is_cuttable(encode_utf8(text), k as nat, encode_utf8(needle).len()),
    ensures
        replacement_of(text, lower, needle, lower_needle, replacement) matches Some(result)
            ==> exists|places: Seq<nat>|
            #[trigger] are_all_places(
                encode_utf8(lower),
                encode_utf8(lower_needle),
                encode_utf8(needle).len(),
                0,
                places,
            ) && result == decode_utf8(
                woven(
                    encode_utf8(text),
                    places,
                    encode_utf8(needle).len(),
                    encode_utf8(replacement),
                    0,
                ),
            ),
{
    law_every_place_gives_way(
        encode_utf8(text),
        encode_utf8(lower),
        encode_utf8(needle).len(),
        encode_utf8(lower_needle),
        encode_utf8(replacement),
    );
}

} // verus!
