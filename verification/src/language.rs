//! Language tags such as `zh`, `zh-CN` and `en_US`.
use crate::text::{
    chars_of, equal_ignoring_case, fold, folded, lemma_run_ends, lemma_run_len, run_len, slice_of,
    string_of,
};
use vstd::prelude::*;

verus! {

/// The predicate that holds of the characters between the parts of a tag.
pub open spec fn separators() -> spec_fn(char) -> bool {
    |c: char| c == '-' || c == '_'
}

/// The first part of a tag: the language without its region.
pub open spec fn base_of(tag: Seq<char>) -> Seq<char> {
    tag.take(run_len(tag, separators()) as int)
}

/// Whether two tags mean one language.
pub open spec fn languages_match(left: Seq<char>, right: Seq<char>) -> bool {
    folded(left) == folded(right) || folded(base_of(left)) == folded(base_of(right))
}

/// The first part of a tag: the language without its region.
pub fn base_language(tag: &str) -> (base: String)
    ensures
        base@ == base_of(tag@),
{
    let chars = chars_of(tag);
    let mut end: usize = 0;
    proof {
        lemma_run_len(tag@, separators());
    }
    while end < chars.len() && chars[end] != '-' && chars[end] != '_'
        invariant
            chars@ == tag@,
            run_len(tag@, separators()) <= tag@.len(),
            run_len(tag@, separators()) < tag@.len() ==> separators()(
                tag@[run_len(tag@, separators()) as int],
            ),
            end <= run_len(tag@, separators()),
        decreases chars.len() - end,
    {
        end = end + 1;
    }
    proof {
        if end < run_len(tag@, separators()) {
            assert(!separators()(tag@[end as int]));
        }
        assert(chars@.subrange(0, end as int) == tag@.take(end as int));
    }
    string_of(&slice_of(&chars, 0, end))
}

/// Whether two tags mean one language.
pub fn language_matches(configured: &str, requested: &str) -> (same: bool)
    ensures
        same == languages_match(configured@, requested@),
{
    equal_ignoring_case(configured, requested) || equal_ignoring_case(
        base_language(configured).as_str(),
        base_language(requested).as_str(),
    )
}

/// To mean one language is mutual.
pub proof fn law_languages_match_is_mutual(left: Seq<char>, right: Seq<char>)
    ensures
        languages_match(left, left),
        languages_match(left, right) == languages_match(right, left),
{
}

/// Whether a tag is a language alone, or the language with more behind a separator.
pub open spec fn is_tag_of(tag: Seq<char>, language: Seq<char>) -> bool {
    &&& language.is_prefix_of(tag)
    &&& tag.len() > language.len() ==> (tag[language.len() as int] == '-' || tag[
        language.len() as int
    ] == '_')
    &&& forall|i: int| 0 <= i < language.len() ==> #[trigger] language[i] != '-' && language[i]
        != '_'
}

/// Two tags mean one language where the languages in them are the same, ASCII case aside,
/// whatever else is in them.
pub proof fn law_regions_do_not_matter(
    left: Seq<char>,
    first: Seq<char>,
    right: Seq<char>,
    second: Seq<char>,
)
    requires
        is_tag_of(left, first),
        is_tag_of(right, second),
    ensures
        languages_match(left, right) <==> folded(first) == folded(second),
{
    lemma_base(left, first);
    lemma_base(right, second);
    if folded(left) == folded(right) {
        let n = first.len() as int;
        let m = second.len() as int;
        assert(folded(left).len() == left.len());
        assert(folded(right).len() == right.len());
        assert forall|i: int| 0 <= i < left.len() implies fold(#[trigger] left[i])
            == fold(right[i]) by {
            assert(folded(left)[i] == fold(left[i]));
            assert(folded(right)[i] == fold(right[i]));
        }
        assert(left.subrange(0, n) =~= first);
        assert(right.subrange(0, m) =~= second);
        if n < m {
            lemma_separators_have_no_case(left[n], right[n]);
            assert(second[n] == right[n]);
        }
        if m < n {
            lemma_separators_have_no_case(right[m], left[m]);
            assert(first[m] == left[m]);
        }
        assert forall|i: int| 0 <= i < n implies folded(first)[i] == #[trigger] folded(
            second,
        )[i] by {
            assert(first[i] == left[i] && second[i] == right[i]);
            assert(fold(left[i]) == fold(right[i]));
        }
        assert(folded(first) =~= folded(second));
    }
}

/// Nothing but a separator folds to one.
proof fn lemma_separators_have_no_case(separator: char, c: char)
    requires
        separator == '-' || separator == '_',
        fold(separator) == fold(c),
    ensures
        c == separator,
{
}

/// The first part of a tag is the language in it.
pub proof fn lemma_base(tag: Seq<char>, language: Seq<char>)
    requires
        is_tag_of(tag, language),
    ensures
        base_of(tag) == language,
{
    let n = language.len();
    assert(tag.subrange(0, n as int) =~= language);
    assert forall|i: int| 0 <= i < n implies !#[trigger] separators()(tag[i]) by {
        assert(tag[i] == language[i]);
    }
    if n < tag.len() {
        assert(separators()(tag[n as int]));
    }
    lemma_run_ends(tag, separators(), n);
    assert(tag.take(n as int) =~= language);
}

} // verus!
