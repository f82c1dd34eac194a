//! The terms of dictionary entries: lists without repetitions, the words a recogniser
//! should expect, the entries that matter for a text, and what a correction teaches.
use crate::domain::{entry_models, CorrectionRequest, EntryModel, GlossaryEntry, CONFIDENCE_ONE};
use crate::language::{language_matches, languages_match};
use crate::replace::{lowercase, replace_case_insensitive, replacement_of, to_lowercase};
use crate::text::{
    chars_of, common_prefix, common_prefix_len, contains, contains_char, equal_ignoring_case,
    folded, lemma_common_prefix, lemma_texts_push, lemma_trim_idempotent, occurs, optional_text,
    same_text, slice_of, string_of, texts, trim, trimmed,
};
use vstd::prelude::*;

verus! {

/// Whether a list holds a text, ASCII case aside.
pub open spec fn holds(values: Seq<Seq<char>>, value: Seq<char>) -> bool {
    exists|i: int| 0 <= i < values.len() && folded(#[trigger] values[i]) == folded(value)
}

/// A list with a text at its end, unless it holds the text already.
pub open spec fn with_unique(values: Seq<Seq<char>>, value: Seq<char>) -> Seq<Seq<char>> {
    if holds(values, value) {
        values
    } else {
        values.push(value)
    }
}

/// A list without repetitions: of texts that differ in ASCII case at most, the first
/// stays.
pub open spec fn distinct(values: Seq<Seq<char>>) -> Seq<Seq<char>>
    decreases values.len(),
{
    if values.len() == 0 {
        Seq::empty()
    } else {
        with_unique(distinct(values.drop_last()), values.last())
    }
}

/// Appends a text to a list, unless the list holds it already.
pub fn push_unique(values: &mut Vec<String>, value: String)
    ensures
        texts(final(values)@) == with_unique(texts(old(values)@), value@),
{
    let mut i: usize = 0;
    while i < values.len()
        invariant
            i <= values.len(),
            values@ == old(values)@,
            forall|k: int|
                0 <= k < i ==> folded(#[trigger] texts(values@)[k]) != folded(value@),
        decreases values.len() - i,
    {
        if equal_ignoring_case(values[i].as_str(), value.as_str()) {
            proof {
                assert(folded(texts(values@)[i as int]) == folded(value@));
            }
            return;
        }
        i = i + 1;
    }
    proof {
        lemma_texts_push(values@, value);
    }
    values.push(value);
}

/// Going on from a list without repetitions only adds to its end.
pub proof fn lemma_distinct_grows(front: Seq<Seq<char>>, back: Seq<Seq<char>>)
    ensures
        distinct(front).is_prefix_of(distinct(front + back)),
    decreases back.len(),
{
    if back.len() == 0 {
        assert(front + back =~= front);
        assert(distinct(front).subrange(0, distinct(front).len() as int) =~= distinct(front));
    } else {
        lemma_distinct_grows(front, back.drop_last());
        assert((front + back).drop_last() =~= front + back.drop_last());
        let shorter = distinct(front + back.drop_last());
        let longer = distinct(front + back);
        assert(longer.subrange(0, distinct(front).len() as int) =~= shorter.subrange(
            0,
            distinct(front).len() as int,
        ));
    }
}

/// The aliases of an entry that are worth keeping: trimmed, not empty, not the source
/// itself, and each only once.
pub open spec fn kept_aliases(aliases: Seq<Seq<char>>, source: Seq<char>) -> Seq<Seq<char>>
    decreases aliases.len(),
{
    if aliases.len() == 0 {
        Seq::empty()
    } else {
        let alias = trimmed(aliases.last());
        let kept = kept_aliases(aliases.drop_last(), source);
        if alias.len() > 0 && alias != source {
            with_unique(kept, alias)
        } else {
            kept
        }
    }
}

/// The aliases of an entry that are worth keeping.
pub fn normalized_aliases(aliases: &Vec<String>, source: &str) -> (kept: Vec<String>)
    ensures
        texts(kept@) == kept_aliases(texts(aliases@), source@),
{
    let mut kept: Vec<String> = Vec::new();
    let mut i: usize = 0;
    proof {
        assert(texts(kept@) =~= Seq::empty());
        assert(texts(aliases@).take(0) =~= Seq::empty());
    }
    while i < aliases.len()
        invariant
            i <= aliases.len(),
            texts(kept@) == kept_aliases(texts(aliases@).take(i as int), source@),
        decreases aliases.len() - i,
    {
        let alias = trim(aliases[i].as_str());
        proof {
            let next = texts(aliases@).take(i + 1);
            assert(next.drop_last() =~= texts(aliases@).take(i as int));
            assert(next.last() == aliases@[i as int]@);
        }
        if !alias.as_str().is_empty() && !same_text(alias.as_str(), source) {
            push_unique(&mut kept, alias);
        }
        i = i + 1;
    }
    proof {
        assert(texts(aliases@).take(aliases@.len() as int) =~= texts(aliases@));
    }
    kept
}

// ---------------------------------------------------------------------------------
// Words for the recogniser
// ---------------------------------------------------------------------------------

/// How many words a recogniser is given.
pub const MAX_HOTWORDS: usize = 50;

/// How many entries a translation is given.
pub const MAX_RELEVANT: usize = 20;

/// Whether an entry applies to speech in a language.
pub open spec fn applies(entry: EntryModel, source_language: Seq<char>) -> bool {
    entry.active && languages_match(entry.source_language, source_language)
}

/// The words of an entry: its source, then its aliases.
pub open spec fn words_of_entry(entry: EntryModel) -> Seq<Seq<char>> {
    seq![entry.source] + entry.aliases
}

/// The words of the entries that apply to a language.
pub open spec fn candidate_words(entries: Seq<EntryModel>, source_language: Seq<char>) -> Seq<
    Seq<char>,
>
    decreases entries.len(),
{
    if entries.len() == 0 {
        Seq::empty()
    } else if applies(entries.last(), source_language) {
        candidate_words(entries.drop_last(), source_language) + words_of_entry(entries.last())
    } else {
        candidate_words(entries.drop_last(), source_language)
    }
}

/// At most the first `limit` items.
pub open spec fn at_most<T>(items: Seq<T>, limit: nat) -> Seq<T> {
    if items.len() <= limit {
        items
    } else {
        items.take(limit as int)
    }
}

/// The words that a recogniser should expect.
pub open spec fn hotwords_of(entries: Seq<EntryModel>, source_language: Seq<char>) -> Seq<
    Seq<char>,
> {
    at_most(distinct(candidate_words(entries, source_language)), MAX_HOTWORDS as nat)
}

/// The words of the first entries come before those of the others.
proof fn lemma_candidates_split(entries: Seq<EntryModel>, language: Seq<char>, count: int)
    requires
        0 <= count <= entries.len(),
    ensures
        exists|rest: Seq<Seq<char>>|
            candidate_words(entries, language) == #[trigger] (candidate_words(
                entries.take(count),
                language,
            ) + rest),
    decreases entries.len(),
{
    if count == entries.len() {
        assert(entries.take(count) =~= entries);
        assert(candidate_words(entries, language) =~= candidate_words(entries.take(count), language)
            + Seq::<Seq<char>>::empty());
    } else {
        lemma_candidates_split(entries.drop_last(), language, count);
        assert(entries.drop_last().take(count) =~= entries.take(count));
        let rest = choose|rest: Seq<Seq<char>>|
            candidate_words(entries.drop_last(), language) == #[trigger] (candidate_words(
                entries.take(count),
                language,
            ) + rest);
        if applies(entries.last(), language) {
            assert(candidate_words(entries, language) =~= candidate_words(
                entries.take(count),
                language,
            ) + (rest + words_of_entry(entries.last())));
        } else {
            assert(candidate_words(entries, language) =~= candidate_words(
                entries.take(count),
                language,
            ) + rest);
        }
    }
}

/// Appends the words of an entry to a list, each only once.
fn push_words(values: &mut Vec<String>, entry: &GlossaryEntry, Ghost(before): Ghost<Seq<Seq<char>>>)
    requires
        texts(old(values)@) == distinct(before),
    ensures
        texts(final(values)@) == distinct(before + words_of_entry(entry@)),
{
    let ghost all = words_of_entry(entry@);
    push_unique(values, entry.source.clone());
    proof {
        assert((before + all.take(1)).drop_last() =~= before);
        assert((before + all.take(1)).last() == entry@.source);
    }
    let mut i: usize = 0;
    while i < entry.aliases.len()
        invariant
            i <= entry.aliases.len(),
            all == words_of_entry(entry@),
            texts(values@) == distinct(before + all.take(i + 1)),
        decreases entry.aliases.len() - i,
    {
        push_unique(values, entry.aliases[i].clone());
        proof {
            assert((before + all.take(i + 2)).drop_last() =~= before + all.take(i + 1));
            assert((before + all.take(i + 2)).last() == entry@.aliases[i as int]);
        }
        i = i + 1;
    }
    proof {
        assert(all.take(all.len() as int) =~= all);
    }
}

/// The words that a recogniser should expect: the sources and aliases of the entries
/// that apply to a language, each only once, and no more than a recogniser takes.
pub fn expected_words(entries: &Vec<GlossaryEntry>, source_language: &str) -> (words: Vec<String>)
    ensures
        texts(words@) == hotwords_of(entry_models(entries@), source_language@),
{
    let ghost models = entry_models(entries@);
    let mut words: Vec<String> = Vec::new();
    let mut i: usize = 0;
    proof {
        assert(models.take(0) =~= Seq::empty());
        assert(texts(words@) =~= Seq::empty());
    }
    while i < entries.len() && words.len() < MAX_HOTWORDS
        invariant
            i <= entries.len(),
            models == entry_models(entries@),
            texts(words@) == distinct(candidate_words(models.take(i as int), source_language@)),
        decreases entries.len() - i,
    {
        let entry = &entries[i];
        proof {
            assert(models.take(i + 1).drop_last() =~= models.take(i as int));
            assert(models.take(i + 1).last() == entry@);
        }
        if entry.active && language_matches(entry.source_language.as_str(), source_language) {
            push_words(
                &mut words,
                entry,
                Ghost(candidate_words(models.take(i as int), source_language@)),
            );
        }
        i = i + 1;
    }
    proof {
        let now = candidate_words(models.take(i as int), source_language@);
        lemma_candidates_split(models, source_language@, i as int);
        let rest = choose|rest: Seq<Seq<char>>|
            candidate_words(models, source_language@) == #[trigger] (now + rest);
        lemma_distinct_grows(now, rest);
        assert(models.take(models.len() as int) =~= models);
        if words@.len() >= MAX_HOTWORDS {
            assert(texts(words@.subrange(0, MAX_HOTWORDS as int)) =~= texts(words@).take(
                MAX_HOTWORDS as int,
            ));
            assert(texts(words@).take(MAX_HOTWORDS as int) =~= distinct(now + rest).take(
                MAX_HOTWORDS as int,
            ));
            if distinct(now + rest).len() == MAX_HOTWORDS {
                assert(distinct(now + rest).take(MAX_HOTWORDS as int) =~= distinct(now + rest));
            }
        }
    }
    words.truncate(MAX_HOTWORDS);
    words
}

// ---------------------------------------------------------------------------------
// Entries that matter for a text
// ---------------------------------------------------------------------------------

/// The lower-case forms of some texts.
pub open spec fn lowercase_all(values: Seq<Seq<char>>) -> Seq<Seq<char>> {
    values.map_values(|value: Seq<char>| lowercase(value))
}

/// Whether any of the terms stands in a text.
pub open spec fn mentioned(text: Seq<char>, terms: Seq<Seq<char>>) -> bool {
    exists|i: int| 0 <= i < terms.len() && occurs(text, #[trigger] terms[i])
}

/// Whether an entry matters for a text: it applies to both languages, and its source
/// or one of its aliases stands in the text, case aside.
pub open spec fn is_relevant(
    entry: EntryModel,
    text: Seq<char>,
    source_language: Seq<char>,
    target_language: Seq<char>,
) -> bool {
    applies(entry, source_language) && languages_match(entry.target_language, target_language)
        && mentioned(lowercase(text), lowercase_all(words_of_entry(entry)))
}

/// The entries that matter for a text.
pub open spec fn relevant_of(
    entries: Seq<EntryModel>,
    text: Seq<char>,
    source_language: Seq<char>,
    target_language: Seq<char>,
) -> Seq<EntryModel> {
    entries.filter(
        |entry: EntryModel| is_relevant(entry, text, source_language, target_language),
    )
}

/// Whether any of the terms stands in a text.
pub fn mentions(text: &str, terms: &Vec<String>) -> (found: bool)
    ensures
        found == mentioned(text@, texts(terms@)),
{
    let mut i: usize = 0;
    while i < terms.len()
        invariant
            i <= terms.len(),
            forall|k: int| 0 <= k < i ==> !occurs(text@, #[trigger] texts(terms@)[k]),
        decreases terms.len() - i,
    {
        if contains(text, terms[i].as_str()) {
            proof {
                assert(occurs(text@, texts(terms@)[i as int]));
            }
            return true;
        }
        i = i + 1;
    }
    false
}

/// The lower-case forms of the words of an entry.
fn lower_words(entry: &GlossaryEntry) -> (words: Vec<String>)
    ensures
        texts(words@) == lowercase_all(words_of_entry(entry@)),
{
    let mut words: Vec<String> = Vec::new();
    words.push(to_lowercase(entry.source.as_str()));
    let mut i: usize = 0;
    while i < entry.aliases.len()
        invariant
            i <= entry.aliases.len(),
            words@.len() == i + 1,
            words@[0]@ == lowercase(entry@.source),
            forall|k: int|
                0 <= k < i ==> (#[trigger] words@[k + 1])@ == lowercase(entry@.aliases[k]),
        decreases entry.aliases.len() - i,
    {
        words.push(to_lowercase(entry.aliases[i].as_str()));
        i = i + 1;
    }
    proof {
        let expected = lowercase_all(words_of_entry(entry@));
        assert forall|k: int| 0 <= k < words@.len() implies texts(words@)[k] == expected[k] by {
            if k > 0 {
                assert(words@[(k - 1) + 1]@ == lowercase(entry@.aliases[k - 1]));
            }
        }
        assert(texts(words@) =~= expected);
    }
    words
}

/// The first entries that matter for a text, as many as a translation is given.
pub fn relevant_entries(
    entries: &Vec<GlossaryEntry>,
    text: &str,
    source_language: &str,
    target_language: &str,
) -> (relevant: Vec<GlossaryEntry>)
    ensures
        entry_models(relevant@) == at_most(
            relevant_of(entry_models(entries@), text@, source_language@, target_language@),
            MAX_RELEVANT as nat,
        ),
{
    let lower = to_lowercase(text);
    let ghost models = entry_models(entries@);
    let ghost matters = |entry: EntryModel|
        is_relevant(entry, text@, source_language@, target_language@);
    let mut relevant: Vec<GlossaryEntry> = Vec::new();
    let mut i: usize = 0;
    proof {
        reveal(Seq::filter);
        assert(models.take(0) =~= Seq::empty());
        assert(entry_models(relevant@) =~= models.take(0).filter(matters));
    }
    while i < entries.len() && relevant.len() < MAX_RELEVANT
        invariant
            i <= entries.len(),
            models == entry_models(entries@),
            lower@ == lowercase(text@),
            matters == (|entry: EntryModel|
                is_relevant(entry, text@, source_language@, target_language@)),
            entry_models(relevant@) == models.take(i as int).filter(matters),
            relevant.len() <= MAX_RELEVANT,
        decreases entries.len() - i,
    {
        let entry = &entries[i];
        proof {
            reveal(Seq::filter);
            assert(models.take(i + 1).drop_last() =~= models.take(i as int));
            assert(models.take(i + 1).last() == entry@);
        }
        if entry.active && language_matches(entry.source_language.as_str(), source_language)
            && language_matches(entry.target_language.as_str(), target_language) && mentions(
            lower.as_str(),
            &lower_words(entry),
        ) {
            let copy = entry.clone();
            proof {
                assert(entry_models(relevant@.push(copy)) =~= entry_models(relevant@).push(copy@));
            }
            relevant.push(copy);
        }
        i = i + 1;
    }
    proof {
        assert(models.take(models.len() as int) =~= models);
        assert(models =~= models.take(i as int) + models.skip(i as int));
        Seq::filter_distributes_over_add(models.take(i as int), models.skip(i as int), matters);
        if relevant@.len() == MAX_RELEVANT {
            assert(models.filter(matters).take(MAX_RELEVANT as int) =~= entry_models(relevant@));
        }
    }
    relevant
}

// ---------------------------------------------------------------------------------
// Putting sources for their aliases
// ---------------------------------------------------------------------------------

/// The aliases of the entries that apply to a language, each with its source.
pub open spec fn alias_pairs(entries: Seq<EntryModel>, source_language: Seq<char>) -> Seq<
    (Seq<char>, Seq<char>),
>
    decreases entries.len(),
{
    if entries.len() == 0 {
        Seq::empty()
    } else if applies(entries.last(), source_language) {
        alias_pairs(entries.drop_last(), source_language) + entries.last().aliases.map_values(
            |alias: Seq<char>| (alias, entries.last().source),
        )
    } else {
        alias_pairs(entries.drop_last(), source_language)
    }
}

/// A list of pairs in falling order of length, with one more pair behind all that are
/// no shorter.
pub open spec fn placed_by_length(
    pairs: Seq<(Seq<char>, Seq<char>)>,
    pair: (Seq<char>, Seq<char>),
) -> Seq<(Seq<char>, Seq<char>)>
    decreases pairs.len(),
{
    if pairs.len() == 0 || pairs.last().0.len() >= pair.0.len() {
        pairs.push(pair)
    } else {
        placed_by_length(pairs.drop_last(), pair).push(pairs.last())
    }
}

/// The pairs in falling order of the length of the alias. Pairs of one length stay in
/// their order.
pub open spec fn longest_first(pairs: Seq<(Seq<char>, Seq<char>)>) -> Seq<(Seq<char>, Seq<char>)>
    decreases pairs.len(),
{
    if pairs.len() == 0 {
        Seq::empty()
    } else {
        placed_by_length(longest_first(pairs.drop_last()), pairs.last())
    }
}

/// The text with each alias, one after the other, replaced by its source. There is
/// none where one of them cannot be searched for.
pub open spec fn replaced_all(text: Seq<char>, pairs: Seq<(Seq<char>, Seq<char>)>) -> Option<
    Seq<char>,
>
    decreases pairs.len(),
{
    if pairs.len() == 0 {
        Some(text)
    } else {
        match replacement_of(text, lowercase(text), pairs[0].0, lowercase(pairs[0].0), pairs[0].1) {
            Some(next) => replaced_all(next, pairs.skip(1)),
            None => None,
        }
    }
}

/// The text in the words of the dictionary.
pub open spec fn normalized(
    entries: Seq<EntryModel>,
    text: Seq<char>,
    source_language: Seq<char>,
) -> Option<Seq<char>> {
    replaced_all(text, longest_first(alias_pairs(entries, source_language)))
}

/// The texts of pairs of an alias and its source.
pub open spec fn pair_models(pairs: Seq<(String, String)>) -> Seq<(Seq<char>, Seq<char>)> {
    pairs.map_values(|pair: (String, String)| (pair.0@, pair.1@))
}

/// Puts a pair into a list in falling order of length, behind all that are no shorter.
fn place_by_length(pairs: &mut Vec<(String, String)>, pair: (String, String))
    ensures
        pair_models(final(pairs)@) == placed_by_length(
            pair_models(old(pairs)@),
            (pair.0@, pair.1@),
        ),
{
    let size: usize = chars_of(pair.0.as_str()).len();
    let ghost all = pair_models(pairs@);
    let ghost item = (pair.0@, pair.1@);
    let mut at: usize = pairs.len();
    proof {
        assert(all.take(at as int) =~= all);
        assert(placed_by_length(all, item) =~= placed_by_length(all.take(at as int), item)
            + all.skip(at as int));
    }
    while at > 0 && chars_of(pairs[at - 1].0.as_str()).len() < size
        invariant
            at <= pairs.len(),
            pairs@ == old(pairs)@,
            all == pair_models(pairs@),
            item == (pair.0@, pair.1@),
            size == item.0.len(),
            placed_by_length(all, item) == placed_by_length(all.take(at as int), item) + all.skip(
                at as int,
            ),
        decreases at,
    {
        proof {
            let head = all.take(at as int);
            assert(head.drop_last() =~= all.take(at - 1));
            assert(head.last() == all[at - 1]);
            assert(all.skip(at - 1) =~= seq![all[at - 1]] + all.skip(at as int));
            assert(placed_by_length(head, item) + all.skip(at as int) =~= placed_by_length(
                all.take(at - 1),
                item,
            ) + all.skip(at - 1));
        }
        at = at - 1;
    }
    proof {
        let head = all.take(at as int);
        if at > 0 {
            assert(head.last() == all[at - 1]);
        }
        assert(placed_by_length(head, item) == head.push(item));
        assert(pair_models(pairs@.insert(at as int, pair)) =~= head.push(item) + all.skip(
            at as int,
        ));
    }
    pairs.insert(at, pair);
}

/// The aliases of the entries that apply to a language, each with its source, the
/// longest first.
fn ordered_pairs(entries: &Vec<GlossaryEntry>, source_language: &str) -> (pairs: Vec<
    (String, String),
>)
    ensures
        pair_models(pairs@) == longest_first(alias_pairs(entry_models(entries@), source_language@)),
{
    let ghost models = entry_models(entries@);
    let mut pairs: Vec<(String, String)> = Vec::new();
    let mut i: usize = 0;
    proof {
        assert(models.take(0) =~= Seq::empty());
        assert(pair_models(pairs@) =~= Seq::empty());
    }
    while i < entries.len()
        invariant
            i <= entries.len(),
            models == entry_models(entries@),
            pair_models(pairs@) == longest_first(
                alias_pairs(models.take(i as int), source_language@),
            ),
        decreases entries.len() - i,
    {
        let entry = &entries[i];
        let ghost before = alias_pairs(models.take(i as int), source_language@);
        let ghost added = entry@.aliases.map_values(|alias: Seq<char>| (alias, entry@.source));
        proof {
            assert(models.take(i + 1).drop_last() =~= models.take(i as int));
            assert(models.take(i + 1).last() == entry@);
        }
        if entry.active && language_matches(entry.source_language.as_str(), source_language) {
            let mut k: usize = 0;
            proof {
                assert(before + added.take(0) =~= before);
            }
            while k < entry.aliases.len()
                invariant
                    k <= entry.aliases.len(),
                    added == entry@.aliases.map_values(
                        |alias: Seq<char>| (alias, entry@.source),
                    ),
                    pair_models(pairs@) == longest_first(before + added.take(k as int)),
                decreases entry.aliases.len() - k,
            {
                proof {
                    assert((before + added.take(k + 1)).drop_last() =~= before + added.take(
                        k as int,
                    ));
                    assert((before + added.take(k + 1)).last() == (
                        entry@.aliases[k as int],
                        entry@.source,
                    ));
                }
                place_by_length(
                    &mut pairs,
                    (entry.aliases[k].clone(), entry.source.clone()),
                );
                k = k + 1;
            }
            proof {
                assert(added.take(added.len() as int) =~= added);
                assert(alias_pairs(models.take(i + 1), source_language@) =~= before + added);
            }
        }
        i = i + 1;
    }
    proof {
        assert(models.take(models.len() as int) =~= models);
    }
    pairs
}

/// The text with each alias of the entries that apply replaced by its source, longer
/// aliases first. `None` where one of the aliases cannot be searched for.
pub fn normalize_terms(entries: &Vec<GlossaryEntry>, text: &str, source_language: &str) -> (outcome:
    Option<String>)
    ensures
        optional_text(outcome) == normalized(entry_models(entries@), text@, source_language@),
{
    let pairs = ordered_pairs(entries, source_language);
    let ghost models = pair_models(pairs@);
    let mut result = text.to_owned();
    let mut i: usize = 0;
    proof {
        assert(models.skip(0) =~= models);
    }
    while i < pairs.len()
        invariant
            i <= pairs.len(),
            models == pair_models(pairs@),
            models == longest_first(alias_pairs(entry_models(entries@), source_language@)),
            replaced_all(result@, models.skip(i as int)) == replaced_all(text@, models),
        decreases pairs.len() - i,
    {
        let alias = &pairs[i].0;
        let source = &pairs[i].1;
        proof {
            assert(models.skip(i as int)[0] == (alias@, source@));
            assert(models.skip(i as int).skip(1) =~= models.skip(i + 1));
        }
        match replace_case_insensitive(result.as_str(), alias.as_str(), source.as_str()) {
            Some(next) => {
                result = next;
            },
            None => {
                return None;
            },
        }
        i = i + 1;
    }
    Some(result)
}

// ---------------------------------------------------------------------------------
// What a correction teaches
// ---------------------------------------------------------------------------------

/// How many characters two texts have in common at their ends.
pub open spec fn common_suffix_len(left: Seq<char>, right: Seq<char>) -> nat {
    common_prefix_len(left.reverse(), right.reverse())
}

/// What changed between two texts: each of them without their common beginning and,
/// behind that, their common end.
pub open spec fn changed(before: Seq<char>, after: Seq<char>) -> (Seq<char>, Seq<char>) {
    let start = common_prefix_len(before, after) as int;
    let old_tail = before.skip(start);
    let new_tail = after.skip(start);
    let end = common_suffix_len(old_tail, new_tail);
    (old_tail.take(old_tail.len() - end), new_tail.take(new_tail.len() - end))
}

/// The characters in reverse order.
fn reversed(chars: &Vec<char>) -> (result: Vec<char>)
    ensures
        result@ == chars@.reverse(),
{
    let mut result: Vec<char> = Vec::new();
    let mut i: usize = chars.len();
    while i > 0
        invariant
            i <= chars.len(),
            result@.len() == chars@.len() - i,
            forall|k: int| 0 <= k < result@.len() ==> result@[k] == chars@[chars@.len() - 1 - k],
        decreases i,
    {
        i = i - 1;
        result.push(chars[i]);
    }
    proof {
        assert(result@ =~= chars@.reverse());
    }
    result
}

/// What changed between two texts.
pub fn changed_fragment(before: &str, after: &str) -> (fragments: (String, String))
    ensures
        (fragments.0@, fragments.1@) == changed(before@, after@),
{
    let old_chars = chars_of(before);
    let new_chars = chars_of(after);
    let start = common_prefix(&old_chars, &new_chars);
    proof {
        lemma_common_prefix(before@, after@);
    }
    let old_tail = slice_of(&old_chars, start, old_chars.len());
    let new_tail = slice_of(&new_chars, start, new_chars.len());
    proof {
        assert(old_tail@ =~= before@.skip(start as int));
        assert(new_tail@ =~= after@.skip(start as int));
    }
    let end = common_prefix(&reversed(&old_tail), &reversed(&new_tail));
    proof {
        lemma_common_prefix(old_tail@.reverse(), new_tail@.reverse());
    }
    let old_part = slice_of(&old_tail, 0, old_tail.len() - end);
    let new_part = slice_of(&new_tail, 0, new_tail.len() - end);
    proof {
        assert(old_part@ =~= old_tail@.take(old_tail@.len() - end));
        assert(new_part@ =~= new_tail@.take(new_tail@.len() - end));
    }
    (string_of(&old_part), string_of(&new_part))
}

/// Whether a text can be a term: one to 64 characters on one line.
pub open spec fn is_eligible(text: Seq<char>) -> bool {
    1 <= text.len() <= 64 && !text.contains('\n') && !text.contains('\r')
}

/// Whether a text can be a term.
pub fn eligible_term(value: &str) -> (eligible: bool)
    ensures
        eligible == is_eligible(value@),
{
    let count: usize = chars_of(value).len();
    1 <= count && count <= 64 && !contains_char(value, '\n') && !contains_char(value, '\r')
}

/// The content of a correction.
pub struct CorrectionModel {
    pub original_source: Seq<char>,
    pub corrected_source: Seq<char>,
    pub original_translation: Seq<char>,
    pub corrected_translation: Seq<char>,
    pub source_language: Seq<char>,
    pub target_language: Seq<char>,
}

impl View for CorrectionRequest {
    type V = CorrectionModel;

    open spec fn view(&self) -> CorrectionModel {
        CorrectionModel {
            original_source: self.original_source@,
            corrected_source: self.corrected_source@,
            original_translation: self.original_translation@,
            corrected_translation: self.corrected_translation@,
            source_language: self.source_language@,
            target_language: self.target_language@,
        }
    }
}

/// The entry that a correction teaches: what the source and the translation were
/// corrected to, with what the source was corrected from as its alias. Nothing where
/// either of them cannot be a term.
pub open spec fn lesson(correction: CorrectionModel) -> Option<EntryModel> {
    let sources = changed(
        trimmed(correction.original_source),
        trimmed(correction.corrected_source),
    );
    let targets = changed(
        trimmed(correction.original_translation),
        trimmed(correction.corrected_translation),
    );
    let original = trimmed(sources.0);
    let source = trimmed(sources.1);
    let target = trimmed(targets.1);
    if is_eligible(source) && is_eligible(target) {
        Some(
            EntryModel {
                id: None,
                source,
                source_language: correction.source_language,
                target,
                target_language: correction.target_language,
                aliases: if is_eligible(original) && original != source {
                    seq![original]
                } else {
                    Seq::empty()
                },
                domain: "learned"@,
                confidence: CONFIDENCE_ONE,
                evidence_count: 1,
                active: true,
            },
        )
    } else {
        None
    }
}

/// The content of an optional entry.
pub open spec fn optional_entry(entry: Option<GlossaryEntry>) -> Option<EntryModel> {
    match entry {
        Some(e) => Some(e@),
        None => None,
    }
}

/// The entry that a correction teaches, if it teaches any.
pub fn lesson_of(correction: &CorrectionRequest) -> (entry: Option<GlossaryEntry>)
    ensures
        optional_entry(entry) == lesson(correction@),
{
    let sources = changed_fragment(
        trim(correction.original_source.as_str()).as_str(),
        trim(correction.corrected_source.as_str()).as_str(),
    );
    let targets = changed_fragment(
        trim(correction.original_translation.as_str()).as_str(),
        trim(correction.corrected_translation.as_str()).as_str(),
    );
    let original = trim(sources.0.as_str());
    let source = trim(sources.1.as_str());
    let target = trim(targets.1.as_str());
    if !eligible_term(source.as_str()) || !eligible_term(target.as_str()) {
        return None;
    }
    let mut aliases: Vec<String> = Vec::new();
    if eligible_term(original.as_str()) && !same_text(original.as_str(), source.as_str()) {
        aliases.push(original);
    }
    proof {
        assert(texts(aliases@) =~= lesson(correction@)->0.aliases);
    }
    Some(
        GlossaryEntry {
            id: None,
            source,
            source_language: correction.source_language.clone(),
            target,
            target_language: correction.target_language.clone(),
            aliases,
            domain: "learned".to_owned(),
            confidence: CONFIDENCE_ONE,
            evidence_count: 1,
            active: true,
        },
    )
}

// ---------------------------------------------------------------------------------
// Laws
// ---------------------------------------------------------------------------------

/// A list without repetitions holds every text of the list it comes from, no two of
/// its texts differ in ASCII case alone, and it is no longer.
pub proof fn law_distinct_keeps_each_text_once(values: Seq<Seq<char>>)
    ensures
        forall|i: int| 0 <= i < values.len() ==> holds(distinct(values), #[trigger] values[i]),
        forall|i: int, j: int|
            0 <= i < j < distinct(values).len() ==> folded(#[trigger] distinct(values)[i])
                != folded(#[trigger] distinct(values)[j]),
        distinct(values).len() <= values.len(),
    decreases values.len(),
{
    if values.len() > 0 {
        let front = values.drop_last();
        law_distinct_keeps_each_text_once(front);
        let shorter = distinct(front);
        let longer = distinct(values);
        assert forall|i: int| 0 <= i < values.len() implies holds(longer, #[trigger] values[i]) by {
            if i < front.len() {
                assert(holds(shorter, front[i]));
                let k = choose|k: int|
                    0 <= k < shorter.len() && folded(#[trigger] shorter[k]) == folded(front[i]);
                assert(longer[k] == shorter[k]);
            } else if !holds(shorter, values.last()) {
                assert(longer[longer.len() - 1] == values.last());
            }
        }
    }
}

/// A recogniser is given no more words than it takes, and none of them twice.
pub proof fn law_hotwords_are_few_and_distinct(entries: Seq<EntryModel>, language: Seq<char>)
    ensures
        hotwords_of(entries, language).len() <= MAX_HOTWORDS,
        forall|i: int, j: int|
            0 <= i < j < hotwords_of(entries, language).len() ==> folded(
                #[trigger] hotwords_of(entries, language)[i],
            ) != folded(#[trigger] hotwords_of(entries, language)[j]),
{
    law_distinct_keeps_each_text_once(candidate_words(entries, language));
    let all = distinct(candidate_words(entries, language));
    let few = hotwords_of(entries, language);
    assert forall|i: int, j: int| 0 <= i < j < few.len() implies folded(#[trigger] few[i])
        != folded(#[trigger] few[j]) by {
        assert(few[i] == all[i] && few[j] == all[j]);
    }
}

/// The words of an entry that applies are among the words of all entries.
proof fn lemma_candidates_hold(entries: Seq<EntryModel>, language: Seq<char>, at: int, word: int)
    requires
        0 <= at < entries.len(),
        applies(entries[at], language),
        0 <= word < words_of_entry(entries[at]).len(),
    ensures
        candidate_words(entries, language).contains(words_of_entry(entries[at])[word]),
    decreases entries.len(),
{
    let all = candidate_words(entries, language);
    let before = candidate_words(entries.drop_last(), language);
    if at == entries.len() - 1 {
        assert(all[before.len() + word] == words_of_entry(entries[at])[word]);
    } else {
        lemma_candidates_hold(entries.drop_last(), language, at, word);
        let k = choose|k: int|
            0 <= k < before.len() && before[k] == words_of_entry(entries[at])[word];
        assert(all[k] == before[k]);
    }
}

/// As long as there are no more than a recogniser takes, every term of every entry that
/// applies is among the words it is given, up to ASCII case.
pub proof fn law_every_term_is_expected(
    entries: Seq<EntryModel>,
    language: Seq<char>,
    at: int,
    word: int,
)
    requires
        distinct(candidate_words(entries, language)).len() <= MAX_HOTWORDS,
        0 <= at < entries.len(),
        applies(entries[at], language),
        0 <= word < words_of_entry(entries[at]).len(),
    ensures
        holds(hotwords_of(entries, language), words_of_entry(entries[at])[word]),
{
    let all = candidate_words(entries, language);
    lemma_candidates_hold(entries, language, at, word);
    law_distinct_keeps_each_text_once(all);
    let k = choose|k: int| 0 <= k < all.len() && all[k] == words_of_entry(entries[at])[word];
    assert(holds(distinct(all), all[k]));
}

/// No alias that is kept is empty, is the source, or has white space at its ends.
pub proof fn law_kept_aliases_are_terms(aliases: Seq<Seq<char>>, source: Seq<char>)
    ensures
        forall|i: int|
            0 <= i < kept_aliases(aliases, source).len() ==> {
                let alias = #[trigger] kept_aliases(aliases, source)[i];
                alias.len() > 0 && alias != source && alias == trimmed(alias)
            },
    decreases aliases.len(),
{
    if aliases.len() > 0 {
        law_kept_aliases_are_terms(aliases.drop_last(), source);
        lemma_trim_idempotent(aliases.last());
        let shorter = kept_aliases(aliases.drop_last(), source);
        let longer = kept_aliases(aliases, source);
        assert forall|i: int| 0 <= i < longer.len() implies ({
            let alias = #[trigger] longer[i];
            alias.len() > 0 && alias != source && alias == trimmed(alias)
        }) by {
            if i < shorter.len() {
                assert(longer[i] == shorter[i]);
            }
        }
    }
}

/// Putting a pair into a list keeps the list in falling order of length and adds that
/// pair alone.
proof fn lemma_placed_by_length(pairs: Seq<(Seq<char>, Seq<char>)>, pair: (Seq<char>, Seq<char>))
    requires
        forall|i: int, j: int|
            0 <= i < j < pairs.len() ==> (#[trigger] pairs[i]).0.len() >= (#[trigger] pairs[j]).0.len(),
    ensures
        forall|i: int, j: int|
            0 <= i < j < placed_by_length(pairs, pair).len() ==> (#[trigger] placed_by_length(
                pairs,
                pair,
            )[i]).0.len() >= (#[trigger] placed_by_length(pairs, pair)[j]).0.len(),
        forall|i: int|
            0 <= i < placed_by_length(pairs, pair).len() ==> (#[trigger] placed_by_length(
                pairs,
                pair,
            )[i]).0.len() >= (if pairs.len() > 0 && pairs.last().0.len() < pair.0.len() {
                pairs.last().0.len()
            } else {
                pair.0.len()
            }),
        placed_by_length(pairs, pair).to_multiset() == pairs.to_multiset().insert(pair),
    decreases pairs.len(),
{
    broadcast use vstd::seq_lib::group_to_multiset_ensures;

    let result = placed_by_length(pairs, pair);
    if pairs.len() == 0 || pairs.last().0.len() >= pair.0.len() {
    } else {
        let front = pairs.drop_last();
        let shorter = placed_by_length(front, pair);
        lemma_placed_by_length(front, pair);
        assert(pairs =~= front.push(pairs.last()));
        assert(result == shorter.push(pairs.last()));
        assert forall|i: int| 0 <= i < shorter.len() implies (#[trigger] shorter[i]).0.len()
            >= pairs.last().0.len() by {
            if front.len() > 0 {
                assert(pairs[front.len() - 1] == front.last());
                assert(pairs[pairs.len() - 1] == pairs.last());
            }
        }
        assert(result.to_multiset() =~= pairs.to_multiset().insert(pair));
    }
}

/// Longer aliases are replaced before shorter ones, and every alias is.
pub proof fn law_longest_alias_goes_first(pairs: Seq<(Seq<char>, Seq<char>)>)
    ensures
        forall|i: int, j: int|
            0 <= i < j < longest_first(pairs).len() ==> (#[trigger] longest_first(
                pairs,
            )[i]).0.len() >= (#[trigger] longest_first(pairs)[j]).0.len(),
        longest_first(pairs).to_multiset() == pairs.to_multiset(),
    decreases pairs.len(),
{
    broadcast use vstd::seq_lib::group_to_multiset_ensures;

    if pairs.len() > 0 {
        law_longest_alias_goes_first(pairs.drop_last());
        lemma_placed_by_length(longest_first(pairs.drop_last()), pairs.last());
        assert(pairs =~= pairs.drop_last().push(pairs.last()));
    } else {
        assert(pairs =~= Seq::empty());
    }
}

/// Two texts are what they have in common with what changed between: put the new
/// fragment for the old one, and the one text becomes the other. What changed begins
/// and ends with a difference.
pub proof fn law_changed_is_the_difference(before: Seq<char>, after: Seq<char>)
    ensures
        ({
            let (old_part, new_part) = changed(before, after);
            let start = common_prefix_len(before, after) as int;
            let end = (before.len() - start - old_part.len()) as int;
            &&& 0 <= start && 0 <= end
            &&& before == before.take(start) + old_part + before.skip(before.len() - end)
            &&& after == before.take(start) + new_part + before.skip(before.len() - end)
            &&& old_part.len() > 0 && new_part.len() > 0 ==> old_part[0] != new_part[0]
                && old_part.last() != new_part.last()
        }),
{
    let start = common_prefix_len(before, after) as int;
    lemma_common_prefix(before, after);
    let old_tail = before.skip(start);
    let new_tail = after.skip(start);
    let end = common_suffix_len(old_tail, new_tail) as int;
    let left = old_tail.reverse();
    let right = new_tail.reverse();
    lemma_common_prefix(left, right);
    let (old_part, new_part) = changed(before, after);
    assert(before =~= before.take(start) + old_part + before.skip(before.len() - end));
    assert forall|k: int| after.len() - end <= k < after.len() implies #[trigger] after[k]
        == before[before.len() - after.len() + k] by {
        let j = after.len() - 1 - k;
        assert(left.take(end)[j] == right.take(end)[j]);
        assert(left[j] == before[before.len() - 1 - j]);
        assert(right[j] == after[after.len() - 1 - j]);
    }
    assert forall|k: int| 0 <= k < start implies after[k] == before[k] by {
        assert(before.take(start)[k] == after.take(start)[k]);
    }
    assert(after =~= before.take(start) + new_part + before.skip(before.len() - end));
    if old_part.len() > 0 && new_part.len() > 0 {
        assert(old_part[0] == before[start]);
        assert(new_part[0] == after[start]);
        assert(old_part.last() == left[end]);
        assert(new_part.last() == right[end]);
    }
}

/// A correction that changes nothing teaches nothing.
pub proof fn law_no_change_no_lesson(correction: CorrectionModel)
    requires
        trimmed(correction.original_source) == trimmed(correction.corrected_source)
            || trimmed(correction.original_translation) == trimmed(correction.corrected_translation),
    ensures
        lesson(correction) is None,
{
    let source = trimmed(correction.corrected_source);
    let target = trimmed(correction.corrected_translation);
    lemma_unchanged(source);
    lemma_unchanged(target);
}

/// Nothing changes between a text and itself.
proof fn lemma_unchanged(text: Seq<char>)
    ensures
        changed(text, text).1.len() == 0,
        trimmed(changed(text, text).1).len() == 0,
{
    lemma_common_prefix(text, text);
    let rest = text.skip(common_prefix_len(text, text) as int);
    lemma_common_prefix(rest.reverse(), rest.reverse());
    assert(changed(text, text).1.len() == 0);
    assert(trimmed(changed(text, text).1) =~= Seq::empty());
}

/// The pair of an alias of an entry with what it gives way to: the source of the entry.
pub open spec fn pair_at(entries: Seq<EntryModel>, i: int, k: int) -> (Seq<char>, Seq<char>) {
    (entries[i].aliases[k], entries[i].source)
}

/// Whether there is such an alias, and its entry is active and of the language.
pub open spec fn has_alias(entries: Seq<EntryModel>, language: Seq<char>, i: int, k: int) -> bool {
    0 <= i < entries.len() && entries[i].active && languages_match(
        entries[i].source_language,
        language,
    ) && 0 <= k < entries[i].aliases.len()
}

/// Whether a pair is an alias of an active entry of the language with its source.
pub open spec fn is_pair(
    entries: Seq<EntryModel>,
    language: Seq<char>,
    pair: (Seq<char>, Seq<char>),
) -> bool {
    exists|i: int, k: int|
        #[trigger] has_alias(entries, language, i, k) && pair == pair_at(entries, i, k)
}

/// Whether pairs are all aliases of the active entries of a language with their sources,
/// and nothing else.
pub open spec fn are_all_aliases(
    pairs: Seq<(Seq<char>, Seq<char>)>,
    entries: Seq<EntryModel>,
    language: Seq<char>,
) -> bool {
    &&& forall|i: int, k: int|
        #[trigger] has_alias(entries, language, i, k) ==> pairs.contains(pair_at(entries, i, k))
    &&& forall|j: int|
        0 <= j < pairs.len() ==> is_pair(entries, language, #[trigger] pairs[j])
}

/// The pairs of the entries that apply are their aliases with their sources.
proof fn lemma_alias_pairs(entries: Seq<EntryModel>, language: Seq<char>)
    ensures
        are_all_aliases(alias_pairs(entries, language), entries, language),
    decreases entries.len(),
{
    let all = alias_pairs(entries, language);
    if entries.len() > 0 {
        let front = entries.drop_last();
        let before = alias_pairs(front, language);
        let end = entries.len() - 1;
        lemma_alias_pairs(front, language);
        assert forall|i: int, k: int| #[trigger] has_alias(
            entries,
            language,
            i,
            k,
        ) implies all.contains(pair_at(entries, i, k)) by {
            let pair = pair_at(entries, i, k);
            if i < front.len() {
                assert(front[i] == entries[i]);
                assert(has_alias(front, language, i, k));
                assert(before.contains(pair));
                let j = choose|j: int| 0 <= j < before.len() && before[j] == pair;
                assert(all[j] == pair);
            } else {
                assert(all[before.len() + k] == pair);
            }
        }
        assert forall|j: int| 0 <= j < all.len() implies is_pair(
            entries,
            language,
            #[trigger] all[j],
        ) by {
            if j < before.len() {
                assert(all[j] == before[j]);
                assert(is_pair(front, language, before[j]));
                let (i, k) = choose|i: int, k: int|
                    #[trigger] has_alias(front, language, i, k) && before[j] == pair_at(
                        front,
                        i,
                        k,
                    );
                assert(front[i] == entries[i]);
                assert(has_alias(entries, language, i, k));
            } else {
                assert(has_alias(entries, language, end, j - before.len()));
            }
        }
    }
}

/// A text is put in the words of the dictionary by all its aliases: every alias of every
/// entry that applies gives way to its source, longer ones first, and nothing else does.
pub proof fn law_every_alias_gives_way(
    entries: Seq<EntryModel>,
    text: Seq<char>,
    language: Seq<char>,
)
    ensures
        exists|pairs: Seq<(Seq<char>, Seq<char>)>|
            #[trigger] are_all_aliases(pairs, entries, language) && (forall|i: int, j: int|
                0 <= i < j < pairs.len() ==> (#[trigger] pairs[i]).0.len() >= (
                #[trigger] pairs[j]).0.len()) && normalized(entries, text, language)
                == replaced_all(text, pairs),
        are_all_aliases(longest_first(alias_pairs(entries, language)), entries, language),
{
    let given = alias_pairs(entries, language);
    let pairs = longest_first(given);
    lemma_alias_pairs(entries, language);
    law_longest_alias_goes_first(given);
    assert forall|pair: (Seq<char>, Seq<char>)| #[trigger] given.contains(pair)
        == pairs.contains(pair) by {
        broadcast use vstd::seq_lib::group_to_multiset_ensures;

        assert(given.to_multiset().count(pair) == pairs.to_multiset().count(pair));
    }
    assert forall|i: int, k: int| #[trigger] has_alias(
        entries,
        language,
        i,
        k,
    ) implies pairs.contains(pair_at(entries, i, k)) by {
        assert(given.contains(pair_at(entries, i, k)));
    }
    assert forall|j: int| 0 <= j < pairs.len() implies is_pair(
        entries,
        language,
        #[trigger] pairs[j],
    ) by {
        assert(pairs.contains(pairs[j]));
        assert(given.contains(pairs[j]));
        let g = choose|g: int| 0 <= g < given.len() && given[g] == pairs[j];
        assert(is_pair(entries, language, given[g]));
    }
    assert(are_all_aliases(pairs, entries, language));
}

/// Aliases give way one after the other: the first in the text as it is, and each further
/// one in what the ones before it left. Without any the text stays.
pub proof fn law_aliases_give_way_in_turn(
    text: Seq<char>,
    pairs: Seq<(Seq<char>, Seq<char>)>,
    alias: Seq<char>,
    source: Seq<char>,
)
    ensures
        replaced_all(text, Seq::empty()) == Some(text),
        replaced_all(text, pairs.push((alias, source))) == (match replaced_all(text, pairs) {
            Some(next) => replacement_of(next, lowercase(next), alias, lowercase(alias), source),
            None => None,
        }),
    decreases pairs.len(),
{
    let longer = pairs.push((alias, source));
    if pairs.len() == 0 {
        assert(longer.skip(1) =~= Seq::empty());
        assert(longer[0] == (alias, source));
        if let Some(next) = replacement_of(text, lowercase(text), alias, lowercase(alias), source) {
            assert(replaced_all(next, longer.skip(1)) == Some(next));
        }
    } else {
        assert(longer[0] == pairs[0]);
        assert(longer.skip(1) =~= pairs.skip(1).push((alias, source)));
        if let Some(next) = replacement_of(
            text,
            lowercase(text),
            pairs[0].0,
            lowercase(pairs[0].0),
            pairs[0].1,
        ) {
            law_aliases_give_way_in_turn(next, pairs.skip(1), alias, source);
        }
    }
}

/// A translation is given the first entries of both languages whose source or one of whose
/// aliases stands in the text, case aside, in their order: all of them, or twenty.
pub proof fn law_entries_that_matter_are_given(
    entries: Seq<EntryModel>,
    text: Seq<char>,
    source_language: Seq<char>,
    target_language: Seq<char>,
)
    ensures
        ({
            let given = at_most(
                relevant_of(entries, text, source_language, target_language),
                MAX_RELEVANT as nat,
            );
            let matters = |entry: EntryModel|
                entry.active && languages_match(entry.source_language, source_language)
                    && languages_match(entry.target_language, target_language) && (occurs(
                    lowercase(text),
                    lowercase(entry.source),
                ) || exists|k: int|
                    0 <= k < entry.aliases.len() && occurs(
                        lowercase(text),
                        lowercase(#[trigger] entry.aliases[k]),
                    ));
            &&& given.len() <= 20
            &&& given == (if entries.filter(matters).len() <= 20 {
                entries.filter(matters)
            } else {
                entries.filter(matters).take(20)
            })
            &&& forall|i: int| 0 <= i < given.len() ==> matters(#[trigger] given[i])
            &&& forall|i: int|
                0 <= i < entries.len() && given.len() < 20 && matters(entries[i])
                    ==> given.contains(#[trigger] entries[i])
        }),
{
    let matters = |entry: EntryModel|
        entry.active && languages_match(entry.source_language, source_language) && languages_match(
            entry.target_language,
            target_language,
        ) && (occurs(lowercase(text), lowercase(entry.source)) || exists|k: int|
            0 <= k < entry.aliases.len() && occurs(
                lowercase(text),
                lowercase(#[trigger] entry.aliases[k]),
            ));
    let relevant = |entry: EntryModel|
        is_relevant(entry, text, source_language, target_language);
    assert forall|entry: EntryModel| #[trigger] relevant(entry) == matters(entry) by {
        let terms = lowercase_all(words_of_entry(entry));
        assert(terms[0] == lowercase(entry.source));
        assert forall|k: int| 0 <= k < entry.aliases.len() implies terms[k + 1] == lowercase(
            #[trigger] entry.aliases[k],
        ) by {
            assert(words_of_entry(entry)[k + 1] == entry.aliases[k]);
        }
        if mentioned(lowercase(text), terms) {
            let i = choose|i: int|
                0 <= i < terms.len() && occurs(lowercase(text), #[trigger] terms[i]);
            if i > 0 {
                assert(terms[(i - 1) + 1] == lowercase(entry.aliases[i - 1]));
            }
        }
        if occurs(lowercase(text), lowercase(entry.source)) {
            assert(occurs(lowercase(text), terms[0]));
        }
    }
    assert(relevant =~= matters);
    let all = entries.filter(matters);
    assert(relevant_of(entries, text, source_language, target_language) == all);
    let given = at_most(all, 20);
    broadcast use vstd::seq_lib::group_filter_ensures;

    assert forall|i: int| 0 <= i < given.len() implies matters(#[trigger] given[i]) by {
        assert(given[i] == all[i]);
    }
    assert forall|i: int|
        0 <= i < entries.len() && given.len() < 20 && matters(entries[i]) implies given.contains(
        #[trigger] entries[i],
    ) by {
        assert(all.contains(entries[i]));
    }
}

/// The words of further entries come behind those of the entries before them.
proof fn lemma_hotwords_in_order(entries: Seq<EntryModel>, entry: EntryModel, language: Seq<char>)
    ensures
        hotwords_of(entries, language).is_prefix_of(hotwords_of(entries.push(entry), language)),
{
    let longer = entries.push(entry);
    assert(longer.drop_last() =~= entries);
    let before = candidate_words(entries, language);
    let more = if applies(entry, language) {
        words_of_entry(entry)
    } else {
        Seq::empty()
    };
    assert(candidate_words(longer, language) =~= before + more);
    lemma_distinct_grows(before, more);
    let few = hotwords_of(entries, language);
    let many = hotwords_of(longer, language);
    assert(many.subrange(0, few.len() as int) =~= few);
}

/// Every word is a term of an entry that applies.
proof fn lemma_candidates_come_from_entries(
    entries: Seq<EntryModel>,
    language: Seq<char>,
    at: int,
)
    requires
        0 <= at < candidate_words(entries, language).len(),
    ensures
        exists|i: int|
            0 <= i < entries.len() && applies(#[trigger] entries[i], language) && words_of_entry(
                entries[i],
            ).contains(candidate_words(entries, language)[at]),
    decreases entries.len(),
{
    let all = candidate_words(entries, language);
    let before = candidate_words(entries.drop_last(), language);
    if at < before.len() {
        lemma_candidates_come_from_entries(entries.drop_last(), language, at);
        let i = choose|i: int|
            0 <= i < entries.drop_last().len() && applies(
                #[trigger] entries.drop_last()[i],
                language,
            ) && words_of_entry(entries.drop_last()[i]).contains(before[at]);
        assert(entries[i] == entries.drop_last()[i]);
    } else {
        let last = entries[entries.len() - 1];
        assert(all[at] == words_of_entry(last)[at - before.len()]);
    }
}

/// What is kept of a list without repetitions is of the list.
proof fn lemma_distinct_is_of_the_list(values: Seq<Seq<char>>, at: int)
    requires
        0 <= at < distinct(values).len(),
    ensures
        values.contains(distinct(values)[at]),
    decreases values.len(),
{
    let front = values.drop_last();
    if at < distinct(front).len() {
        lemma_distinct_is_of_the_list(front, at);
        let k = choose|k: int| 0 <= k < front.len() && front[k] == distinct(front)[at];
        assert(values[k] == front[k]);
    } else {
        assert(values[values.len() - 1] == distinct(values)[at]);
    }
}

/// Whether a word is the source or an alias of an active entry of a language.
pub open spec fn is_term(entries: Seq<EntryModel>, language: Seq<char>, word: Seq<char>) -> bool {
    exists|i: int|
        0 <= i < entries.len() && (#[trigger] entries[i]).active && languages_match(
            entries[i].source_language,
            language,
        ) && (entries[i].source == word || entries[i].aliases.contains(word))
}

/// A recogniser is given the terms of the entries of its language and no others, those of
/// an entry behind those of the entries before it, and all of them unless there are fifty.
pub proof fn law_expected_words_are_the_terms(
    entries: Seq<EntryModel>,
    entry: EntryModel,
    language: Seq<char>,
)
    ensures
        hotwords_of(entries, language).len() <= 50,
        forall|j: int|
            0 <= j < hotwords_of(entries, language).len() ==> is_term(
                entries,
                language,
                #[trigger] hotwords_of(entries, language)[j],
            ),
        hotwords_of(entries, language).len() < 50 ==> forall|word: Seq<char>|
            #[trigger] is_term(entries, language, word) ==> holds(
                hotwords_of(entries, language),
                word,
            ),
        hotwords_of(entries, language).is_prefix_of(hotwords_of(entries.push(entry), language)),
{
    let given = hotwords_of(entries, language);
    let words = candidate_words(entries, language);
    lemma_hotwords_in_order(entries, entry, language);
    assert forall|j: int| 0 <= j < given.len() implies is_term(
        entries,
        language,
        #[trigger] given[j],
    ) by {
        assert(given[j] == distinct(words)[j]);
        lemma_distinct_is_of_the_list(words, j);
        let at = choose|at: int| 0 <= at < words.len() && words[at] == given[j];
        lemma_candidates_come_from_entries(entries, language, at);
        let i = choose|i: int|
            0 <= i < entries.len() && applies(#[trigger] entries[i], language) && words_of_entry(
                entries[i],
            ).contains(words[at]);
        let terms = words_of_entry(entries[i]);
        let k = choose|k: int| 0 <= k < terms.len() && terms[k] == given[j];
        if k > 0 {
            assert(entries[i].aliases[k - 1] == given[j]);
        }
    }
    if given.len() < 50 {
        assert forall|word: Seq<char>| #[trigger] is_term(entries, language, word) implies holds(
            given,
            word,
        ) by {
            let i = choose|i: int|
                0 <= i < entries.len() && (#[trigger] entries[i]).active && languages_match(
                    entries[i].source_language,
                    language,
                ) && (entries[i].source == word || entries[i].aliases.contains(word));
            let terms = words_of_entry(entries[i]);
            assert(terms[0] == entries[i].source);
            if entries[i].source == word {
                law_every_term_is_expected(entries, language, i, 0);
            } else {
                let k = choose|k: int|
                    0 <= k < entries[i].aliases.len() && entries[i].aliases[k] == word;
                assert(terms[k + 1] == word);
                law_every_term_is_expected(entries, language, i, k + 1);
            }
        }
    }
}

/// Every alias that is worth keeping is kept, up to ASCII case, and what is kept is an
/// alias that was given, without white space around it.
pub proof fn law_worthy_aliases_are_kept(aliases: Seq<Seq<char>>, source: Seq<char>)
    ensures
        forall|i: int|
            0 <= i < aliases.len() && trimmed(#[trigger] aliases[i]).len() > 0 && trimmed(
                aliases[i],
            ) != source ==> holds(kept_aliases(aliases, source), trimmed(aliases[i])),
        forall|j: int|
            0 <= j < kept_aliases(aliases, source).len() ==> exists|i: int|
                0 <= i < aliases.len() && #[trigger] kept_aliases(aliases, source)[j] == trimmed(
                    #[trigger] aliases[i],
                ),
        forall|i: int, j: int|
            0 <= i < j < kept_aliases(aliases, source).len() ==> folded(
                #[trigger] kept_aliases(aliases, source)[i],
            ) != folded(#[trigger] kept_aliases(aliases, source)[j]),
    decreases aliases.len(),
{
    if aliases.len() > 0 {
        let front = aliases.drop_last();
        law_worthy_aliases_are_kept(front, source);
        let shorter = kept_aliases(front, source);
        let longer = kept_aliases(aliases, source);
        let alias = trimmed(aliases.last());
        assert forall|i: int|
            0 <= i < aliases.len() && trimmed(#[trigger] aliases[i]).len() > 0 && trimmed(
                aliases[i],
            ) != source implies holds(longer, trimmed(aliases[i])) by {
            if i < front.len() {
                assert(front[i] == aliases[i]);
                let k = choose|k: int|
                    0 <= k < shorter.len() && folded(#[trigger] shorter[k]) == folded(
                        trimmed(front[i]),
                    );
                assert(longer[k] == shorter[k]);
            } else if !holds(shorter, alias) {
                assert(longer[longer.len() - 1] == alias);
            }
        }
        assert forall|j: int| 0 <= j < longer.len() implies exists|i: int|
            0 <= i < aliases.len() && #[trigger] longer[j] == trimmed(#[trigger] aliases[i]) by {
            if j < shorter.len() {
                assert(longer[j] == shorter[j]);
                let i = choose|i: int|
                    0 <= i < front.len() && #[trigger] shorter[j] == trimmed(#[trigger] front[i]);
                assert(aliases[i] == front[i]);
            } else {
                assert(longer[j] == trimmed(aliases[aliases.len() - 1]));
            }
        }
    }
}

/// Whether one text became another by one stretch of it giving way, and where it stood.
pub open spec fn gave_way(
    before: Seq<char>,
    after: Seq<char>,
    front: Seq<char>,
    old_part: Seq<char>,
    new_part: Seq<char>,
    back: Seq<char>,
) -> bool {
    &&& before == front + old_part + back
    &&& after == front + new_part + back
    &&& old_part.len() > 0 && new_part.len() > 0 ==> old_part[0] != new_part[0] && old_part.last()
        != new_part.last()
}

/// A correction teaches the stretch that the corrected source has where the original had
/// another, with the stretch of the translation that was corrected as its translation and
/// the original stretch as its alias, if each can be a term. Otherwise it teaches nothing.
pub proof fn law_correction_teaches_what_it_corrects(correction: CorrectionModel)
    ensures
        exists|front: Seq<char>, old_part: Seq<char>, new_part: Seq<char>, back: Seq<char>|
            #[trigger] gave_way(
                trimmed(correction.original_source),
                trimmed(correction.corrected_source),
                front,
                old_part,
                new_part,
                back,
            ) && exists|
                left: Seq<char>,
                old_target: Seq<char>,
                new_target: Seq<char>,
                right: Seq<char>,
            |
                #[trigger] gave_way(
                    trimmed(correction.original_translation),
                    trimmed(correction.corrected_translation),
                    left,
                    old_target,
                    new_target,
                    right,
                ) && {
                    let source = trimmed(new_part);
                    let alias = trimmed(old_part);
                    let target = trimmed(new_target);
                    match lesson(correction) {
                        Some(entry) => {
                            &&& 1 <= source.len() <= 64 && 1 <= target.len() <= 64
                            &&& entry.source == source && entry.target == target
                            &&& entry.source_language == correction.source_language
                            &&& entry.target_language == correction.target_language
                            &&& entry.active && entry.id is None && entry.evidence_count == 1
                            &&& entry.domain == "learned"@ && entry.confidence
                                == 0x3ff0_0000_0000_0000
                            &&& entry.aliases == (if is_eligible(alias) && alias != source {
                                seq![alias]
                            } else {
                                Seq::empty()
                            })
                        },
                        None => !is_eligible(source) || !is_eligible(target),
                    }
                },
{
    let before = trimmed(correction.original_source);
    let after = trimmed(correction.corrected_source);
    law_changed_is_the_difference(before, after);
    let (old_part, new_part) = changed(before, after);
    let start = common_prefix_len(before, after) as int;
    let end = before.len() - start - old_part.len();
    assert(gave_way(
        before,
        after,
        before.take(start),
        old_part,
        new_part,
        before.skip(before.len() - end),
    ));
    let earlier = trimmed(correction.original_translation);
    let later = trimmed(correction.corrected_translation);
    law_changed_is_the_difference(earlier, later);
    let (old_target, new_target) = changed(earlier, later);
    let from = common_prefix_len(earlier, later) as int;
    let rest = earlier.len() - from - old_target.len();
    assert(gave_way(
        earlier,
        later,
        earlier.take(from),
        old_target,
        new_target,
        earlier.skip(earlier.len() - rest),
    ));
}

/// Placing a pair keeps the order of those of one length, with the new one behind them.
proof fn lemma_placed_behind_its_like(
    pairs: Seq<(Seq<char>, Seq<char>)>,
    pair: (Seq<char>, Seq<char>),
    length: nat,
)
    requires
        forall|i: int, j: int|
            0 <= i < j < pairs.len() ==> (#[trigger] pairs[i]).0.len() >= (#[trigger] pairs[j]).0.len(),
    ensures
        ({
            let like = |pair: (Seq<char>, Seq<char>)| pair.0.len() == length;
            placed_by_length(pairs, pair).filter(like) == (if pair.0.len() == length {
                pairs.filter(like).push(pair)
            } else {
                pairs.filter(like)
            })
        }),
    decreases pairs.len(),
{
    reveal(Seq::filter);
    let like = |pair: (Seq<char>, Seq<char>)| pair.0.len() == length;
    let placed = placed_by_length(pairs, pair);
    assert(placed.drop_last().push(placed.last()) =~= placed);
    if pairs.len() == 0 || pairs.last().0.len() >= pair.0.len() {
        assert(placed.drop_last() =~= pairs);
    } else {
        let front = pairs.drop_last();
        lemma_placed_behind_its_like(front, pair, length);
        assert(placed.drop_last() =~= placed_by_length(front, pair));
        assert(placed.last() == pairs.last());
        if pairs.last().0.len() == length && pair.0.len() == length {
            assert(false);
        }
    }
}

/// Aliases of one length give way in the order of the dictionary.
pub proof fn law_equal_aliases_keep_their_order(
    pairs: Seq<(Seq<char>, Seq<char>)>,
    length: nat,
)
    ensures
        longest_first(pairs).filter(
            |pair: (Seq<char>, Seq<char>)| pair.0.len() == length,
        ) == pairs.filter(|pair: (Seq<char>, Seq<char>)| pair.0.len() == length),
    decreases pairs.len(),
{
    reveal(Seq::filter);
    let like = |pair: (Seq<char>, Seq<char>)| pair.0.len() == length;
    if pairs.len() > 0 {
        let front = pairs.drop_last();
        law_equal_aliases_keep_their_order(front, length);
        law_longest_alias_goes_first(front);
        lemma_placed_behind_its_like(longest_first(front), pairs.last(), length);
    }
}

/// The pairs of further entries come behind those of the entries before them, in the order
/// of the aliases.
pub proof fn law_aliases_come_in_order(
    entries: Seq<EntryModel>,
    entry: EntryModel,
    language: Seq<char>,
)
    ensures
        ({
            let before = alias_pairs(entries, language);
            let after = alias_pairs(entries.push(entry), language);
            &&& before.is_prefix_of(after)
            &&& entry.active && languages_match(entry.source_language, language) ==> after.len()
                == before.len() + entry.aliases.len() && forall|k: int|
                0 <= k < entry.aliases.len() ==> after[before.len() + k] == (
                    #[trigger] entry.aliases[k],
                    entry.source,
                )
        }),
{
    let longer = entries.push(entry);
    assert(longer.drop_last() =~= entries);
    let before = alias_pairs(entries, language);
    let after = alias_pairs(longer, language);
    assert(after.subrange(0, before.len() as int) =~= before);
}

/// What can be a term is a line of one to sixty-four characters.
pub proof fn law_terms_are_short_lines(text: Seq<char>)
    ensures
        is_eligible(text) <==> 0 < text.len() < 65 && forall|i: int|
            0 <= i < text.len() ==> #[trigger] text[i] != '\n' && text[i] != '\r',
{
    if exists|i: int| 0 <= i < text.len() && (#[trigger] text[i] == '\n' || text[i] == '\r') {
        let i = choose|i: int|
            0 <= i < text.len() && (#[trigger] text[i] == '\n' || text[i] == '\r');
        assert(text.contains(text[i]));
    }
}

} // verus!
