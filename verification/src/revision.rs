//! How much a text changed, and how much a segment says.
use crate::text::{
    chars_of, common_prefix, common_prefix_len, lemma_common_prefix, words, words_of,
};
use vstd::prelude::*;

verus! {

/// Whether a character is a letter or a number, as Unicode has it.
pub uninterp spec fn alphanumeric(c: char) -> bool;

/// The letters and numbers of ASCII.
pub open spec fn is_ascii_alphanumeric(c: char) -> bool {
    'a' <= c <= 'z' || 'A' <= c <= 'Z' || '0' <= c <= '9'
}

/// `char::is_alphanumeric` tells letters and numbers from other characters. Among the
/// characters of ASCII those are the letters and digits.
pub assume_specification[ char::is_alphanumeric ](c: char) -> (is: bool)
    ensures
        is == alphanumeric(c),
        c < '\u{80}' ==> is == is_ascii_alphanumeric(c),
;

// ---------------------------------------------------------------------------------
// Edit distance
// ---------------------------------------------------------------------------------

/// The smaller of two numbers.
pub open spec fn smaller(a: nat, b: nat) -> nat {
    if a <= b {
        a
    } else {
        b
    }
}

/// The least number of characters to put in, take out or exchange that turns one text
/// into another.
pub open spec fn distance(left: Seq<char>, right: Seq<char>) -> nat
    decreases left.len() + right.len(),
{
    if left.len() == 0 {
        right.len()
    } else if right.len() == 0 {
        left.len()
    } else {
        smaller(
            smaller(
                distance(left.drop_last(), right) + 1,
                distance(left, right.drop_last()) + 1,
            ),
            distance(left.drop_last(), right.drop_last()) + if left.last() != right.last() {
                1nat
            } else {
                0nat
            },
        )
    }
}

/// Two texts are no further apart than the longer of them is long, and no closer than
/// their lengths differ.
pub proof fn law_distance_is_bounded(left: Seq<char>, right: Seq<char>)
    ensures
        distance(left, right) <= left.len() || distance(left, right) <= right.len(),
        distance(left, right) >= left.len() - right.len(),
        distance(left, right) >= right.len() - left.len(),
    decreases left.len() + right.len(),
{
    if left.len() > 0 && right.len() > 0 {
        law_distance_is_bounded(left.drop_last(), right);
        law_distance_is_bounded(left, right.drop_last());
        law_distance_is_bounded(left.drop_last(), right.drop_last());
    }
}

/// Two texts are as far apart in the one direction as in the other.
pub proof fn law_distance_is_mutual(left: Seq<char>, right: Seq<char>)
    ensures
        distance(left, right) == distance(right, left),
    decreases left.len() + right.len(),
{
    if left.len() > 0 && right.len() > 0 {
        law_distance_is_mutual(left.drop_last(), right);
        law_distance_is_mutual(left, right.drop_last());
        law_distance_is_mutual(left.drop_last(), right.drop_last());
    }
}

/// Nothing lies between two texts exactly if they are the same.
pub proof fn law_distance_tells_texts_apart(left: Seq<char>, right: Seq<char>)
    ensures
        distance(left, right) == 0 <==> left == right,
    decreases left.len() + right.len(),
{
    if left.len() == 0 || right.len() == 0 {
        if left.len() == right.len() {
            assert(left =~= right);
        }
    } else {
        law_distance_tells_texts_apart(left.drop_last(), right.drop_last());
        if left.last() == right.last() {
            if left.drop_last() == right.drop_last() {
                assert(left =~= left.drop_last().push(left.last()));
                assert(right =~= right.drop_last().push(right.last()));
            }
        }
    }
}

/// A third text on the way makes no way shorter.
pub proof fn law_distance_has_no_shortcut(left: Seq<char>, between: Seq<char>, right: Seq<char>)
    ensures
        distance(left, right) <= distance(left, between) + distance(between, right),
    decreases left.len() + between.len() + right.len(),
{
    if left.len() == 0 || right.len() == 0 || between.len() == 0 {
        law_distance_is_bounded(left, right);
        law_distance_is_bounded(left, between);
        law_distance_is_bounded(between, right);
    } else {
        let l = left.drop_last();
        let b = between.drop_last();
        let r = right.drop_last();
        law_distance_has_no_shortcut(l, between, right);
        law_distance_has_no_shortcut(left, between, r);
        law_distance_has_no_shortcut(left, b, right);
        law_distance_has_no_shortcut(left, b, r);
        law_distance_has_no_shortcut(l, b, right);
        law_distance_has_no_shortcut(l, b, r);
    }
}

/// The row of the distances between one beginning of a text and the beginnings of
/// another.
pub open spec fn is_distance_row(row: Seq<usize>, left: Seq<char>, right: Seq<char>) -> bool {
    row.len() == right.len() && forall|j: int|
        0 <= j < row.len() ==> #[trigger] row[j] == distance(left, right.take(j + 1))
}

/// The distance of two texts that the machine can hold is a number that it can hold.
proof fn lemma_distance_fits(left: Seq<char>, right: Seq<char>)
    requires
        left.len() <= usize::MAX,
        right.len() <= usize::MAX,
    ensures
        distance(left, right) <= usize::MAX,
{
    law_distance_is_bounded(left, right);
}

/// The distances of the next longer beginning of the left text, from those of the one
/// before it.
fn next_row(row: &Vec<usize>, left: &Vec<char>, at: usize, right: &Vec<char>) -> (next: Vec<usize>)
    requires
        at < left.len(),
        is_distance_row(row@, left@.take(at as int), right@),
    ensures
        is_distance_row(next@, left@.take(at + 1), right@),
{
    let ghost shorter = left@.take(at as int);
    let ghost longer = left@.take(at + 1);
    proof {
        assert(longer.drop_last() =~= shorter);
        assert(longer.last() == left@[at as int]);
    }
    let mut next: Vec<usize> = Vec::new();
    let mut beside: usize = at + 1;
    let mut above_beside: usize = at;
    let mut j: usize = 0;
    proof {
        assert(right@.take(0) =~= Seq::empty());
    }
    while j < right.len()
        invariant
            j <= right.len(),
            at < left.len(),
            shorter == left@.take(at as int),
            longer == left@.take(at + 1),
            longer.drop_last() == shorter,
            longer.last() == left@[at as int],
            is_distance_row(row@, shorter, right@),
            next@.len() == j,
            forall|k: int|
                0 <= k < j ==> #[trigger] next@[k] == distance(longer, right@.take(k + 1)),
            beside == distance(longer, right@.take(j as int)),
            above_beside == distance(shorter, right@.take(j as int)),
        decreases right.len() - j,
    {
        let above = row[j];
        let substitution: usize = if left[at] != right[j] {
            1
        } else {
            0
        };
        proof {
            let front = right@.take(j + 1);
            assert(front.drop_last() =~= right@.take(j as int));
            assert(front.last() == right@[j as int]);
            assert(above == distance(shorter, front));
            lemma_distance_fits(longer, front);
        }
        let removed = above.saturating_add(1);
        let inserted = beside.saturating_add(1);
        let exchanged = above_beside.saturating_add(substitution);
        let mut least = if removed <= inserted {
            removed
        } else {
            inserted
        };
        if exchanged < least {
            least = exchanged;
        }
        proof {
            assert(least == distance(longer, right@.take(j + 1)));
        }
        next.push(least);
        beside = least;
        above_beside = above;
        j = j + 1;
    }
    next
}

/// The least number of characters to put in, take out or exchange that turns one text
/// into another.
pub fn character_edit_distance(left: &str, right: &str) -> (count: usize)
    ensures
        count == distance(left@, right@),
{
    let old_chars = chars_of(left);
    let new_chars = chars_of(right);
    if new_chars.len() == 0 {
        proof {
            assert(new_chars@ =~= Seq::empty());
        }
        return old_chars.len();
    }
    let mut row: Vec<usize> = Vec::new();
    let mut j: usize = 0;
    while j < new_chars.len()
        invariant
            j <= new_chars.len(),
            row@.len() == j,
            forall|k: int| 0 <= k < j ==> #[trigger] row@[k] == k + 1,
        decreases new_chars.len() - j,
    {
        j = j + 1;
        row.push(j);
    }
    let mut i: usize = 0;
    proof {
        assert(old_chars@.take(0) =~= Seq::empty());
    }
    while i < old_chars.len()
        invariant
            i <= old_chars.len(),
            is_distance_row(row@, old_chars@.take(i as int), new_chars@),
        decreases old_chars.len() - i,
    {
        row = next_row(&row, &old_chars, i, &new_chars);
        i = i + 1;
    }
    proof {
        assert(old_chars@.take(old_chars@.len() as int) =~= old_chars@);
        assert(new_chars@.take(new_chars@.len() as int) =~= new_chars@);
    }
    row[new_chars.len() - 1]
}

// ---------------------------------------------------------------------------------
// What a segment says
// ---------------------------------------------------------------------------------

/// How many characters two texts have in common at their beginnings.
pub fn common_prefix_characters(left: &str, right: &str) -> (count: usize)
    ensures
        count == common_prefix_len(left@, right@),
{
    common_prefix(&chars_of(left), &chars_of(right))
}

/// How many letters and numbers a text holds.
pub open spec fn meaningful_characters(text: Seq<char>) -> nat
    decreases text.len(),
{
    if text.len() == 0 {
        0
    } else {
        meaningful_characters(text.drop_last()) + if alphanumeric(text.last()) {
            1nat
        } else {
            0nat
        }
    }
}

/// How many letters and numbers outside ASCII a text holds.
pub open spec fn foreign_characters(text: Seq<char>) -> nat
    decreases text.len(),
{
    if text.len() == 0 {
        0
    } else {
        foreign_characters(text.drop_last()) + if alphanumeric(text.last()) && text.last()
            >= '\u{80}' {
            1nat
        } else {
            0nat
        }
    }
}

/// Whether a segment with so many words, and so many letters and numbers outside
/// ASCII, is short.
pub open spec fn is_short(word_count: nat, foreign_count: nat) -> bool {
    word_count < 6 && (foreign_count > 0 ==> foreign_count < 10)
}

/// How many letters and numbers a text holds.
pub fn meaningful_character_count(text: &str) -> (count: usize)
    ensures
        count == meaningful_characters(text@),
{
    let chars = chars_of(text);
    let mut count: usize = 0;
    let mut i: usize = 0;
    proof {
        assert(chars@.take(0) =~= Seq::empty());
    }
    while i < chars.len()
        invariant
            i <= chars.len(),
            count <= i,
            count == meaningful_characters(chars@.take(i as int)),
        decreases chars.len() - i,
    {
        proof {
            assert(chars@.take(i + 1).drop_last() =~= chars@.take(i as int));
            assert(chars@.take(i + 1).last() == chars@[i as int]);
        }
        if chars[i].is_alphanumeric() {
            count = count + 1;
        }
        i = i + 1;
    }
    proof {
        assert(chars@.take(chars@.len() as int) =~= chars@);
    }
    count
}

/// How many letters and numbers outside ASCII a text holds.
pub fn foreign_character_count(text: &str) -> (count: usize)
    ensures
        count == foreign_characters(text@),
{
    let chars = chars_of(text);
    let mut count: usize = 0;
    let mut i: usize = 0;
    proof {
        assert(chars@.take(0) =~= Seq::empty());
    }
    while i < chars.len()
        invariant
            i <= chars.len(),
            count <= i,
            count == foreign_characters(chars@.take(i as int)),
        decreases chars.len() - i,
    {
        proof {
            assert(chars@.take(i + 1).drop_last() =~= chars@.take(i as int));
            assert(chars@.take(i + 1).last() == chars@[i as int]);
        }
        if chars[i].is_alphanumeric() && chars[i] >= '\u{80}' {
            count = count + 1;
        }
        i = i + 1;
    }
    proof {
        assert(chars@.take(chars@.len() as int) =~= chars@);
    }
    count
}

/// Whether a segment with so many words, and so many letters and numbers outside
/// ASCII, is short.
pub fn is_short_by_counts(word_count: usize, foreign_count: usize) -> (short: bool)
    ensures
        short == is_short(word_count as nat, foreign_count as nat),
{
    if foreign_count > 0 {
        foreign_count < 10 && word_count < 6
    } else {
        word_count < 6
    }
}

/// Whether a segment is short.
pub fn is_short_segment(text: &str) -> (short: bool)
    ensures
        short == is_short(words(text@).len(), foreign_characters(text@)),
{
    let found = words_of(text);
    proof {
        assert(crate::text::texts(found@).len() == found@.len());
    }
    is_short_by_counts(found.len(), foreign_character_count(text))
}

/// A number that grows by another, up to the largest one there is.
pub open spec fn saturating_sum(total: usize, more: nat) -> usize {
    if total + more > usize::MAX {
        usize::MAX
    } else {
        (total + more) as usize
    }
}

/// The characters by which a revision is measured: those of the original, but at least
/// one.
pub open spec fn measured_characters(original: Seq<char>) -> nat {
    if original.len() == 0 {
        1
    } else {
        original.len()
    }
}

/// Counts the revision of a text: the edits, and the characters they are measured by.
pub fn add_revision(
    original: &str,
    revised: &str,
    edit_total: &mut usize,
    character_total: &mut usize,
)
    ensures
        *final(edit_total) == saturating_sum(*old(edit_total), distance(original@, revised@)),
        *final(character_total) == saturating_sum(
            *old(character_total),
            measured_characters(original@),
        ),
{
    let length: usize = chars_of(original).len();
    *edit_total = edit_total.saturating_add(character_edit_distance(original, revised));
    *character_total = character_total.saturating_add(
        if length == 0 {
            1
        } else {
            length
        },
    );
}

/// Text that only grows at its end keeps all of its characters: none of them counts as
/// revised.
pub proof fn law_appending_revises_nothing(previous: Seq<char>, more: Seq<char>)
    ensures
        common_prefix_len(previous, previous + more) == previous.len(),
{
    lemma_common_prefix(previous, previous + more);
    let shared = common_prefix_len(previous, previous + more) as int;
    if shared < previous.len() {
        assert(previous[shared] == (previous + more)[shared]);
    }
}

/// A way from one text to another puts in, takes out or exchanges one character after the
/// other: a character on either side costs no more than one, two that are the same cost
/// nothing, and no way is shorter than the shortest of these.
pub proof fn law_distance_counts_single_edits(left: Seq<char>, right: Seq<char>, a: char, b: char)
    ensures
        distance(left.push(a), right) <= distance(left, right) + 1,
        distance(left, right.push(b)) <= distance(left, right) + 1,
        distance(left.push(a), right.push(a)) == distance(left, right),
        distance(left.push(a), right.push(b)) <= distance(left, right) + 1,
        distance(left, Seq::empty()) == left.len(),
        distance(Seq::empty(), right) == right.len(),
{
    lemma_one_more_costs_one(left, right, a);
    lemma_one_more_costs_one(right, left, b);
    law_distance_is_mutual(left, right);
    law_distance_is_mutual(left, right.push(b));
    lemma_one_more_costs_one(right, left, a);
    law_distance_is_mutual(left, right.push(a));
    assert(left.push(a).drop_last() =~= left);
    assert(right.push(b).drop_last() =~= right);
    assert(right.push(a).drop_last() =~= right);
    lemma_one_less_costs_one(left, right, a);
    lemma_one_less_costs_one(right, left, a);
}

/// One more character makes a text at most one further away.
proof fn lemma_one_more_costs_one(left: Seq<char>, right: Seq<char>, a: char)
    ensures
        distance(left.push(a), right) <= distance(left, right) + 1,
{
    assert(left.push(a).drop_last() =~= left);
}

/// One more character makes a text at most one closer.
proof fn lemma_one_less_costs_one(left: Seq<char>, right: Seq<char>, a: char)
    ensures
        distance(left, right) <= distance(left.push(a), right) + 1,
{
    law_distance_has_no_shortcut(left, left.push(a), right);
    law_distance_is_mutual(left, left.push(a));
    lemma_one_more_costs_one(left, left, a);
    law_distance_tells_texts_apart(left, left);
}

/// What counts of a text are its letters and numbers, and among them those outside ASCII.
pub proof fn law_letters_and_numbers_count(text: Seq<char>)
    ensures
        meaningful_characters(text) == text.filter(|c: char| alphanumeric(c)).len(),
        foreign_characters(text) == text.filter(|c: char| alphanumeric(c) && c >= '\u{80}').len(),
    decreases text.len(),
{
    reveal(Seq::filter);
    if text.len() > 0 {
        law_letters_and_numbers_count(text.drop_last());
    }
}

/// A segment is long with six words, or with ten letters and numbers outside ASCII, and
/// short with less.
pub proof fn law_short_segments_say_little(word_count: nat, foreign_count: nat)
    ensures
        is_short(word_count, foreign_count) <==> word_count <= 5 && foreign_count <= 9,
{
}

/// A total grows by what is added, up to the largest number there is, and a revision is
/// measured by the characters of the original, or by one where it has none.
pub proof fn law_totals_grow(total: usize, more: nat, original: Seq<char>)
    ensures
        saturating_sum(total, more) == (if total + more <= usize::MAX {
            total + more
        } else {
            usize::MAX as int
        }),
        measured_characters(original) >= 1,
        original.len() >= 1 ==> measured_characters(original) == original.len(),
        original.len() == 0 ==> measured_characters(original) == 1,
{
}

} // verus!
