//! Text as sequences of characters: trimming, searching, splitting and case folding.
use vstd::prelude::*;

verus! {

/// `String::push` appends one character to the end of the string.
pub assume_specification[ String::push ](text: &mut String, character: char)
    ensures
        final(text)@ == old(text)@.push(character),
;

/// The characters that carry the Unicode `White_Space` property.
pub open spec fn is_space(c: char) -> bool {
    ||| '\u{9}' <= c <= '\u{d}'
    ||| c == ' '
    ||| c == '\u{85}'
    ||| c == '\u{a0}'
    ||| c == '\u{1680}'
    ||| '\u{2000}' <= c <= '\u{200a}'
    ||| c == '\u{2028}'
    ||| c == '\u{2029}'
    ||| c == '\u{202f}'
    ||| c == '\u{205f}'
    ||| c == '\u{3000}'
}

/// Whether a character is white space.
pub fn is_whitespace(c: char) -> (space: bool)
    ensures
        space == is_space(c),
{
    ('\u{9}' <= c && c <= '\u{d}') || c == ' ' || c == '\u{85}' || c == '\u{a0}' || c == '\u{1680}'
        || ('\u{2000}' <= c && c <= '\u{200a}') || c == '\u{2028}' || c == '\u{2029}' || c
        == '\u{202f}' || c == '\u{205f}' || c == '\u{3000}'
}

/// The characters of a string, in order.
pub fn chars_of(text: &str) -> (chars: Vec<char>)
    ensures
        chars@ == text@,
{
    let mut chars: Vec<char> = Vec::new();
    for c in it: text.chars()
        invariant
            it.seq() == text@,
            chars@ == it.seq().take(it.index() as int),
    {
        chars.push(c);
    }
    assert(text@.take(text@.len() as int) == text@);
    chars
}

/// The string made of the given characters.
pub fn string_of(chars: &Vec<char>) -> (text: String)
    ensures
        text@ == chars@,
{
    let mut text = String::new();
    let mut i: usize = 0;
    while i < chars.len()
        invariant
            i <= chars.len(),
            text@ == chars@.take(i as int),
        decreases chars.len() - i,
    {
        text.push(chars[i]);
        i = i + 1;
    }
    assert(chars@.take(i as int) == chars@);
    text
}

/// The predicate that holds of white space.
pub open spec fn spaces() -> spec_fn(char) -> bool {
    |c: char| is_space(c)
}

/// What is left of `s` once every leading character in `drop` is gone.
pub open spec fn strip_start(s: Seq<char>, drop: spec_fn(char) -> bool) -> Seq<char>
    decreases s.len(),
{
    if s.len() > 0 && drop(s[0]) {
        strip_start(s.skip(1), drop)
    } else {
        s
    }
}

/// What is left of `s` once every trailing character in `drop` is gone.
pub open spec fn strip_end(s: Seq<char>, drop: spec_fn(char) -> bool) -> Seq<char>
    decreases s.len(),
{
    if s.len() > 0 && drop(s.last()) {
        strip_end(s.drop_last(), drop)
    } else {
        s
    }
}

/// `s` without leading and trailing white space.
pub open spec fn trimmed(s: Seq<char>) -> Seq<char> {
    strip_end(strip_start(s, spaces()), spaces())
}

/// Stripping at the front leaves a suffix whose first character is kept.
pub proof fn lemma_strip_start(s: Seq<char>, drop: spec_fn(char) -> bool)
    ensures
        strip_start(s, drop).len() <= s.len(),
        strip_start(s, drop) == s.skip(s.len() - strip_start(s, drop).len()),
        strip_start(s, drop).len() > 0 ==> !drop(strip_start(s, drop)[0]),
        forall|i: int|
            0 <= i < s.len() - strip_start(s, drop).len() ==> #[trigger] drop(s[i]),
    decreases s.len(),
{
    if s.len() > 0 && drop(s[0]) {
        let rest = s.skip(1);
        lemma_strip_start(rest, drop);
        let n = s.len() - strip_start(s, drop).len();
        assert(s.skip(n) == rest.skip(n - 1));
        assert forall|i: int| 0 <= i < n implies #[trigger] drop(s[i]) by {
            if i > 0 {
                assert(drop(rest[i - 1]));
            }
        }
    } else {
        assert(s.skip(0) == s);
    }
}

/// Stripping at the end leaves a prefix whose last character is kept.
pub proof fn lemma_strip_end(s: Seq<char>, drop: spec_fn(char) -> bool)
    ensures
        strip_end(s, drop).len() <= s.len(),
        strip_end(s, drop) == s.take(strip_end(s, drop).len() as int),
        strip_end(s, drop).len() > 0 ==> !drop(strip_end(s, drop).last()),
        forall|i: int| strip_end(s, drop).len() <= i < s.len() ==> #[trigger] drop(s[i]),
    decreases s.len(),
{
    if s.len() > 0 && drop(s.last()) {
        let rest = s.drop_last();
        lemma_strip_end(rest, drop);
        let n = strip_end(s, drop).len() as int;
        assert(s.take(n) == rest.take(n));
        assert forall|i: int| n <= i < s.len() implies #[trigger] drop(s[i]) by {
            if i < s.len() - 1 {
                assert(drop(rest[i]));
            }
        }
    } else {
        assert(s.take(s.len() as int) == s);
    }
}

/// A text whose ends are kept is not changed by stripping.
pub proof fn lemma_strip_fixed(s: Seq<char>, drop: spec_fn(char) -> bool)
    ensures
        s.len() == 0 || !drop(s[0]) ==> strip_start(s, drop) == s,
        s.len() == 0 || !drop(s.last()) ==> strip_end(s, drop) == s,
{
}

/// Trimming leaves a stretch of the text with no white space at either end,
/// and all that it takes away is white space.
pub proof fn lemma_trimmed(s: Seq<char>)
    ensures
        trimmed(s).len() <= s.len(),
        trimmed(s).len() > 0 ==> !is_space(trimmed(s)[0]) && !is_space(trimmed(s).last()),
        exists|from: int|
            0 <= from && from + trimmed(s).len() <= s.len() && trimmed(s) == #[trigger] s.subrange(
                from,
                from + trimmed(s).len(),
            ),
        trimmed(s).len() == 0 <==> (forall|i: int| 0 <= i < s.len() ==> is_space(#[trigger] s[i])),
{
    let front = strip_start(s, spaces());
    lemma_strip_start(s, spaces());
    lemma_strip_end(front, spaces());
    let from = s.len() - front.len();
    let to = from + trimmed(s).len();
    assert(trimmed(s) =~= s.subrange(from, to));
    if trimmed(s).len() == 0 {
        assert forall|i: int| 0 <= i < s.len() implies is_space(#[trigger] s[i]) by {
            if i < from {
                assert(spaces()(s[i]));
            } else {
                assert(spaces()(front[i - from]));
            }
        }
    } else {
        assert(!is_space(front[0])) by {
            assert(!spaces()(front[0]));
        }
        assert(trimmed(s)[0] == front[0]);
        assert(!spaces()(trimmed(s).last()));
        assert(s[from] == front[0]);
    }
}

/// Trimming a trimmed text changes nothing.
pub proof fn lemma_trim_idempotent(s: Seq<char>)
    ensures
        trimmed(trimmed(s)) == trimmed(s),
{
    lemma_trimmed(s);
    lemma_strip_fixed(trimmed(s), spaces());
}

/// The characters of `chars` from `from` up to, not including, `to`.
pub fn slice_of(chars: &Vec<char>, from: usize, to: usize) -> (part: Vec<char>)
    requires
        from <= to <= chars.len(),
    ensures
        part@ == chars@.subrange(from as int, to as int),
{
    let mut part: Vec<char> = Vec::new();
    let mut i: usize = from;
    while i < to
        invariant
            from <= i <= to <= chars.len(),
            part@ == chars@.subrange(from as int, i as int),
        decreases to - i,
    {
        part.push(chars[i]);
        i = i + 1;
    }
    part
}

/// `chars` without leading and trailing white space.
pub fn trim_chars(chars: &Vec<char>) -> (kept: Vec<char>)
    ensures
        kept@ == trimmed(chars@),
{
    let mut start: usize = 0;
    proof {
        assert(chars@.skip(0) == chars@);
    }
    while start < chars.len() && is_whitespace(chars[start])
        invariant
            start <= chars.len(),
            strip_start(chars@.skip(start as int), spaces()) == strip_start(chars@, spaces()),
        decreases chars.len() - start,
    {
        proof {
            assert(chars@.skip(start as int).skip(1) == chars@.skip(start + 1));
        }
        start = start + 1;
    }
    let ghost front = chars@.skip(start as int);
    let mut end: usize = chars.len();
    proof {
        assert(front.len() > 0 ==> front[0] == chars@[start as int]);
        assert(front.take(front.len() as int) == front);
    }
    while end > start && is_whitespace(chars[end - 1])
        invariant
            start <= end <= chars.len(),
            front == chars@.skip(start as int),
            strip_end(front.take(end - start), spaces()) == strip_end(front, spaces()),
        decreases end - start,
    {
        proof {
            assert(front.take(end - start).drop_last() == front.take(end - start - 1));
        }
        end = end - 1;
    }
    proof {
        assert(end > start ==> front.take(end - start).last() == chars@[end - 1]);
        assert(front.take(end - start) == chars@.subrange(start as int, end as int));
    }
    slice_of(chars, start, end)
}

/// `text` without leading and trailing white space.
pub fn trim(text: &str) -> (kept: String)
    ensures
        kept@ == trimmed(text@),
{
    let chars = chars_of(text);
    string_of(&trim_chars(&chars))
}

/// Whether two character vectors hold the same text.
pub fn same_chars(left: &Vec<char>, right: &Vec<char>) -> (same: bool)
    ensures
        same == (left@ == right@),
{
    if left.len() != right.len() {
        return false;
    }
    let mut i: usize = 0;
    while i < left.len()
        invariant
            i <= left.len() == right.len(),
            left@.take(i as int) == right@.take(i as int),
        decreases left.len() - i,
    {
        if left[i] != right[i] {
            proof {
                assert(left@[i as int] != right@[i as int]);
            }
            return false;
        }
        i = i + 1;
        proof {
            assert(left@.take(i as int) =~= left@.take(i - 1).push(left@[i - 1]));
            assert(right@.take(i as int) =~= right@.take(i - 1).push(right@[i - 1]));
        }
    }
    proof {
        assert(left@.take(i as int) == left@);
        assert(right@.take(i as int) == right@);
    }
    true
}

/// Whether two strings hold the same text.
pub fn same_text(left: &str, right: &str) -> (same: bool)
    ensures
        same == (left@ == right@),
{
    same_chars(&chars_of(left), &chars_of(right))
}

/// Whether `chars` begins with `prefix`.
pub fn starts_with(chars: &Vec<char>, prefix: &Vec<char>) -> (starts: bool)
    ensures
        starts == prefix@.is_prefix_of(chars@),
{
    if prefix.len() > chars.len() {
        return false;
    }
    let head = slice_of(chars, 0, prefix.len());
    same_chars(prefix, &head)
}

/// The number of characters that two texts share at their beginning.
pub open spec fn common_prefix_len(left: Seq<char>, right: Seq<char>) -> nat
    decreases left.len(),
{
    if left.len() > 0 && right.len() > 0 && left[0] == right[0] {
        1 + common_prefix_len(left.skip(1), right.skip(1))
    } else {
        0
    }
}

/// The common prefix is one, and no longer one exists.
pub proof fn lemma_common_prefix(left: Seq<char>, right: Seq<char>)
    ensures
        common_prefix_len(left, right) <= left.len(),
        common_prefix_len(left, right) <= right.len(),
        left.take(common_prefix_len(left, right) as int) == right.take(
            common_prefix_len(left, right) as int,
        ),
        common_prefix_len(left, right) < left.len() && common_prefix_len(left, right) < right.len()
            ==> left[common_prefix_len(left, right) as int] != right[common_prefix_len(
            left,
            right,
        ) as int],
    decreases left.len(),
{
    if left.len() > 0 && right.len() > 0 && left[0] == right[0] {
        lemma_common_prefix(left.skip(1), right.skip(1));
        let n = common_prefix_len(left, right) as int;
        assert(left.take(n) =~= seq![left[0]] + left.skip(1).take(n - 1));
        assert(right.take(n) =~= seq![right[0]] + right.skip(1).take(n - 1));
    } else {
        assert(left.take(0) =~= right.take(0));
    }
}

/// The number of characters that two character vectors share at their beginning.
pub fn common_prefix(left: &Vec<char>, right: &Vec<char>) -> (count: usize)
    ensures
        count == common_prefix_len(left@, right@),
{
    let mut i: usize = 0;
    proof {
        assert(left@.skip(0) == left@);
        assert(right@.skip(0) == right@);
    }
    while i < left.len() && i < right.len() && left[i] == right[i]
        invariant
            i <= left.len(),
            i <= right.len(),
            i + common_prefix_len(left@.skip(i as int), right@.skip(i as int))
                == common_prefix_len(left@, right@),
        decreases left.len() - i,
    {
        proof {
            assert(left@.skip(i as int).skip(1) == left@.skip(i + 1));
            assert(right@.skip(i as int).skip(1) == right@.skip(i + 1));
        }
        i = i + 1;
    }
    i
}

/// A character's code point, with the ASCII capital letters read as small ones.
pub open spec fn fold(c: char) -> u32 {
    if 'A' <= c <= 'Z' {
        (c as u32 + 32) as u32
    } else {
        c as u32
    }
}

/// The code points of a text, with the ASCII capital letters read as small ones.
pub open spec fn folded(s: Seq<char>) -> Seq<u32> {
    s.map_values(|c: char| fold(c))
}

/// The code point that stands for a character when ASCII case is ignored.
pub fn fold_char(c: char) -> (code: u32)
    ensures
        code == fold(c),
{
    if 'A' <= c && c <= 'Z' {
        c as u32 + 32
    } else {
        c as u32
    }
}

/// The code points of a text with ASCII case ignored.
pub fn fold_chars(chars: &Vec<char>) -> (codes: Vec<u32>)
    ensures
        codes@ == folded(chars@),
{
    let mut codes: Vec<u32> = Vec::new();
    let mut i: usize = 0;
    while i < chars.len()
        invariant
            i <= chars.len(),
            codes@ == folded(chars@.take(i as int)),
        decreases chars.len() - i,
    {
        codes.push(fold_char(chars[i]));
        i = i + 1;
        proof {
            assert(chars@.take(i as int) =~= chars@.take(i - 1).push(chars@[i - 1]));
            assert(codes@ =~= folded(chars@.take(i as int)));
        }
    }
    assert(chars@.take(i as int) == chars@);
    codes
}

/// Whether `left` and `right` are the same text when ASCII case is ignored.
pub fn equal_ignoring_case(left: &str, right: &str) -> (equal: bool)
    ensures
        equal == (folded(left@) == folded(right@)),
{
    let a = fold_chars(&chars_of(left));
    let b = fold_chars(&chars_of(right));
    if a.len() != b.len() {
        return false;
    }
    let mut i: usize = 0;
    while i < a.len()
        invariant
            i <= a.len() == b.len(),
            a@ == folded(left@),
            b@ == folded(right@),
            a@.take(i as int) == b@.take(i as int),
        decreases a.len() - i,
    {
        if a[i] != b[i] {
            proof {
                assert(a@[i as int] != b@[i as int]);
            }
            return false;
        }
        i = i + 1;
        proof {
            assert(a@.take(i as int) =~= a@.take(i - 1).push(a@[i - 1]));
            assert(b@.take(i as int) =~= b@.take(i - 1).push(b@[i - 1]));
        }
    }
    proof {
        assert(a@.take(i as int) == a@);
        assert(b@.take(i as int) == b@);
    }
    true
}

/// Whether `text` begins with `prefix` when ASCII case is ignored.
pub open spec fn begins_ignoring_case(text: Seq<char>, prefix: Seq<char>) -> bool {
    folded(prefix).is_prefix_of(folded(text))
}

/// Whether `text` begins with `prefix` when ASCII case is ignored.
pub fn starts_ignoring_case(text: &str, prefix: &str) -> (starts: bool)
    ensures
        starts == begins_ignoring_case(text@, prefix@),
{
    let chars = chars_of(text);
    let head = chars_of(prefix);
    if head.len() > chars.len() {
        return false;
    }
    let front = string_of(&slice_of(&chars, 0, head.len()));
    proof {
        assert(folded(front@) =~= folded(text@).take(head@.len() as int));
    }
    equal_ignoring_case(prefix, front.as_str())
}

/// Whether `needle` stands in `hay` at position `at`.
pub open spec fn occurs_at<T>(hay: Seq<T>, needle: Seq<T>, at: int) -> bool {
    0 <= at && at + needle.len() <= hay.len() && hay.subrange(at, at + needle.len()) == needle
}

/// Whether `needle` stands anywhere in `hay`.
pub open spec fn occurs<T>(hay: Seq<T>, needle: Seq<T>) -> bool {
    exists|at: int| occurs_at(hay, needle, at)
}

/// Whether `needle` stands in `hay` at position `at`.
pub fn matches_at(hay: &Vec<char>, needle: &Vec<char>, at: usize) -> (matches: bool)
    requires
        at <= hay.len(),
    ensures
        matches == occurs_at(hay@, needle@, at as int),
{
    if needle.len() > hay.len() - at {
        return false;
    }
    let part = slice_of(hay, at, at + needle.len());
    same_chars(&part, needle)
}

/// Whether `needle` stands anywhere in `hay`.
pub fn contains(hay: &str, needle: &str) -> (found: bool)
    ensures
        found == occurs(hay@, needle@),
{
    let text = chars_of(hay);
    let part = chars_of(needle);
    let mut at: usize = 0;
    loop
        invariant
            at <= text.len(),
            text@ == hay@,
            part@ == needle@,
            forall|k: int| 0 <= k < at ==> !occurs_at(hay@, needle@, k),
        decreases text.len() - at,
    {
        if matches_at(&text, &part, at) {
            return true;
        }
        if at == text.len() {
            return false;
        }
        at = at + 1;
    }
}

/// Whether a character stands anywhere in `text`.
pub fn contains_char(text: &str, c: char) -> (found: bool)
    ensures
        found == text@.contains(c),
{
    let chars = chars_of(text);
    let mut i: usize = 0;
    while i < chars.len()
        invariant
            i <= chars.len(),
            chars@ == text@,
            forall|k: int| 0 <= k < i ==> chars@[k] != c,
        decreases chars.len() - i,
    {
        if chars[i] == c {
            return true;
        }
        i = i + 1;
    }
    false
}

/// The texts of a sequence of strings.
pub open spec fn texts(strings: Seq<String>) -> Seq<Seq<char>> {
    strings.map_values(|s: String| s@)
}

/// `left` followed by `right`.
pub fn join2(left: &str, right: &str) -> (joined: String)
    ensures
        joined@ == left@ + right@,
{
    let mut joined = left.to_owned();
    joined.append(right);
    joined
}

/// `first`, `second` and `third`, one after the other.
pub fn join3(first: &str, second: &str, third: &str) -> (joined: String)
    ensures
        joined@ == first@ + second@ + third@,
{
    let mut joined = join2(first, second);
    joined.append(third);
    joined
}

/// A text or a message, by their characters.
pub open spec fn text_outcome(outcome: Result<String, String>) -> Result<Seq<char>, Seq<char>> {
    match outcome {
        Ok(text) => Ok(text@),
        Err(message) => Err(message@),
    }
}

/// The texts of `parts`, one after the other, with `separator` between each two.
pub open spec fn joined(parts: Seq<Seq<char>>, separator: Seq<char>) -> Seq<char>
    decreases parts.len(),
{
    if parts.len() == 0 {
        Seq::empty()
    } else if parts.len() == 1 {
        parts[0]
    } else {
        joined(parts.drop_last(), separator) + separator + parts.last()
    }
}

/// The length of the run of characters outside `stop` at the beginning of `s`.
pub open spec fn run_len(s: Seq<char>, stop: spec_fn(char) -> bool) -> nat
    decreases s.len(),
{
    if s.len() > 0 && !stop(s[0]) {
        1 + run_len(s.skip(1), stop)
    } else {
        0
    }
}

/// The run ends inside the text, and right before a character in `stop` or at the end.
pub proof fn lemma_run_len(s: Seq<char>, stop: spec_fn(char) -> bool)
    ensures
        run_len(s, stop) <= s.len(),
        run_len(s, stop) < s.len() ==> stop(s[run_len(s, stop) as int]),
        forall|i: int| 0 <= i < run_len(s, stop) ==> !#[trigger] stop(s[i]),
    decreases s.len(),
{
    if s.len() > 0 && !stop(s[0]) {
        lemma_run_len(s.skip(1), stop);
        assert forall|i: int| 0 <= i < run_len(s, stop) implies !#[trigger] stop(s[i]) by {
            if i > 0 {
                assert(!stop(s.skip(1)[i - 1]));
            }
        }
    }
}

/// The maximal stretches of `s` that hold no white space, in order.
pub open spec fn words(s: Seq<char>) -> Seq<Seq<char>>
    decreases s.len(),
    via words_decreases
{
    let rest = strip_start(s, spaces());
    if rest.len() == 0 {
        Seq::empty()
    } else {
        let n = run_len(rest, spaces()) as int;
        seq![rest.take(n)] + words(rest.skip(n))
    }
}

#[via_fn]
proof fn words_decreases(s: Seq<char>) {
    let rest = strip_start(s, spaces());
    lemma_strip_start(s, spaces());
    lemma_run_len(rest, spaces());
    if rest.len() > 0 {
        assert(!spaces()(rest[0]));
    }
}

/// The predicate that holds of the line feed.
pub open spec fn line_feed() -> spec_fn(char) -> bool {
    |c: char| c == '\n'
}

/// `line` without one carriage return at its end.
pub open spec fn without_carriage_return(line: Seq<char>) -> Seq<char> {
    if line.len() > 0 && line.last() == '\r' {
        line.drop_last()
    } else {
        line
    }
}

/// The lines of `s`: each ends at a line feed, which a carriage return may precede,
/// or at the end of the text.
pub open spec fn lines(s: Seq<char>) -> Seq<Seq<char>>
    decreases s.len(),
    via lines_decreases
{
    if s.len() == 0 {
        Seq::empty()
    } else {
        let n = run_len(s, line_feed()) as int;
        if n < s.len() {
            seq![without_carriage_return(s.take(n))] + lines(s.skip(n + 1))
        } else {
            seq![s]
        }
    }
}

#[via_fn]
proof fn lines_decreases(s: Seq<char>) {
    lemma_run_len(s, line_feed());
}

/// Adding one string adds its text.
pub proof fn lemma_texts_push(strings: Seq<String>, string: String)
    ensures
        texts(strings.push(string)) == texts(strings).push(string@),
{
    assert(texts(strings.push(string)) =~= texts(strings).push(string@));
}

/// The number of leading characters of `chars`, from `from` on, that are not `stop`.
fn run_to(chars: &Vec<char>, from: usize, stop: char) -> (end: usize)
    requires
        from <= chars.len(),
    ensures
        from <= end <= chars.len(),
        end - from == run_len(chars@.skip(from as int), |c: char| c == stop),
{
    let ghost p = |c: char| c == stop;
    let mut end: usize = from;
    while end < chars.len() && chars[end] != stop
        invariant
            from <= end <= chars.len(),
            p == (|c: char| c == stop),
            end - from + run_len(chars@.skip(end as int), p) == run_len(
                chars@.skip(from as int),
                p,
            ),
        decreases chars.len() - end,
    {
        proof {
            assert(chars@.skip(end as int).skip(1) == chars@.skip(end + 1));
        }
        end = end + 1;
    }
    end
}

/// The maximal stretches without white space, in order.
pub fn words_of(text: &str) -> (found: Vec<String>)
    ensures
        texts(found@) == words(text@),
{
    let chars = chars_of(text);
    let mut found: Vec<String> = Vec::new();
    let mut i: usize = 0;
    proof {
        assert(chars@.skip(0) == chars@);
        assert(texts(found@) + words(chars@) =~= words(chars@));
    }
    while i < chars.len()
        invariant
            i <= chars.len(),
            chars@ == text@,
            texts(found@) + words(chars@.skip(i as int)) == words(chars@),
        decreases chars.len() - i,
    {
        let ghost here = chars@.skip(i as int);
        if is_whitespace(chars[i]) {
            proof {
                assert(here[0] == chars@[i as int]);
                assert(spaces()(here[0]));
                assert(here.skip(1) == chars@.skip(i + 1));
                assert(strip_start(here, spaces()) == strip_start(here.skip(1), spaces()));
                assert(words(here) == words(here.skip(1)));
            }
            i = i + 1;
        } else {
            let start = i;
            proof {
                assert(here[0] == chars@[i as int]);
                assert(!spaces()(here[0]));
            }
            while i < chars.len() && !is_whitespace(chars[i])
                invariant
                    start <= i <= chars.len(),
                    i - start + run_len(chars@.skip(i as int), spaces()) == run_len(
                        chars@.skip(start as int),
                        spaces(),
                    ),
                decreases chars.len() - i,
            {
                proof {
                    assert(chars@.skip(i as int).skip(1) == chars@.skip(i + 1));
                    assert(!spaces()(chars@.skip(i as int)[0]));
                }
                i = i + 1;
            }
            let word = string_of(&slice_of(&chars, start, i));
            proof {
                assert(i < chars.len() ==> spaces()(chars@.skip(i as int)[0]));
                let n = run_len(here, spaces()) as int;
                assert(n == i - start);
                assert(n > 0);
                assert(here.take(n) =~= word@);
                assert(here.skip(n) =~= chars@.skip(i as int));
                lemma_texts_push(found@, word);
                assert(texts(found@).push(word@) + words(here.skip(n)) =~= texts(found@) + (
                seq![word@] + words(here.skip(n))));
            }
            found.push(word);
        }
    }
    proof {
        assert(chars@.skip(i as int).len() == 0);
        assert(words(chars@.skip(i as int)) =~= Seq::empty());
        assert(texts(found@) + Seq::<Seq<char>>::empty() =~= texts(found@));
    }
    found
}

/// The lines of `text`.
pub fn lines_of(text: &str) -> (found: Vec<String>)
    ensures
        texts(found@) == lines(text@),
{
    let chars = chars_of(text);
    let mut found: Vec<String> = Vec::new();
    let mut i: usize = 0;
    proof {
        assert(chars@.skip(0) == chars@);
        assert(texts(found@) + lines(chars@) =~= lines(chars@));
        assert((|c: char| c == '\n') == line_feed());
    }
    while i < chars.len()
        invariant
            i <= chars.len(),
            chars@ == text@,
            texts(found@) + lines(chars@.skip(i as int)) == lines(chars@),
        decreases chars.len() - i,
    {
        let ghost here = chars@.skip(i as int);
        let end = run_to(&chars, i, '\n');
        proof {
            assert((|c: char| c == '\n') == line_feed());
        }
        if end < chars.len() {
            let stop = if end > i && chars[end - 1] == '\r' {
                end - 1
            } else {
                end
            };
            let line = string_of(&slice_of(&chars, i, stop));
            proof {
                let n = run_len(here, line_feed()) as int;
                assert(n == end - i);
                assert(here.take(n) =~= chars@.subrange(i as int, end as int));
                assert(without_carriage_return(here.take(n)) =~= line@);
                assert(here.skip(n + 1) =~= chars@.skip(end + 1));
                lemma_texts_push(found@, line);
                assert(texts(found@).push(line@) + lines(here.skip(n + 1)) =~= texts(found@) + (
                seq![line@] + lines(here.skip(n + 1))));
            }
            found.push(line);
            i = end + 1;
        } else {
            let line = string_of(&slice_of(&chars, i, end));
            proof {
                assert(line@ =~= here);
                lemma_texts_push(found@, line);
                assert(lines(here) == seq![here]);
                assert(chars@.skip(end as int).len() == 0);
                assert(lines(chars@.skip(end as int)) =~= Seq::empty());
                assert(texts(found@).push(line@) + Seq::<Seq<char>>::empty() =~= texts(found@)
                    + seq![here]);
            }
            found.push(line);
            i = end;
        }
    }
    proof {
        assert(chars@.skip(i as int).len() == 0);
        assert(lines(chars@.skip(i as int)) =~= Seq::empty());
        assert(texts(found@) + Seq::<Seq<char>>::empty() =~= texts(found@));
    }
    found
}

/// The texts of `parts`, one after the other, with `separator` between each two.
pub fn join_all(parts: &Vec<String>, separator: &str) -> (whole: String)
    ensures
        whole@ == joined(texts(parts@), separator@),
{
    let mut whole = String::new();
    let mut i: usize = 0;
    while i < parts.len()
        invariant
            i <= parts.len(),
            whole@ == joined(texts(parts@).take(i as int), separator@),
        decreases parts.len() - i,
    {
        if i > 0 {
            whole.append(separator);
        }
        whole.append(parts[i].as_str());
        i = i + 1;
        proof {
            let before = texts(parts@).take(i - 1);
            let after = texts(parts@).take(i as int);
            assert(after.drop_last() =~= before);
            assert(after.last() == parts@[i - 1]@);
            if i == 1 {
                assert(whole@ =~= after[0]);
            }
        }
    }
    assert(texts(parts@).take(i as int) =~= texts(parts@));
    whole
}

/// The same strings again.
pub fn clone_strings(strings: &Vec<String>) -> (copies: Vec<String>)
    ensures
        texts(copies@) == texts(strings@),
{
    let mut copies: Vec<String> = Vec::new();
    let mut i: usize = 0;
    while i < strings.len()
        invariant
            i <= strings.len(),
            texts(copies@) == texts(strings@).take(i as int),
        decreases strings.len() - i,
    {
        let copy = strings[i].clone();
        proof {
            lemma_texts_push(copies@, copy);
            assert(texts(strings@).take(i + 1) =~= texts(strings@).take(i as int).push(
                strings@[i as int]@,
            ));
        }
        copies.push(copy);
        i = i + 1;
    }
    assert(texts(strings@).take(i as int) =~= texts(strings@));
    copies
}

/// The text of an optional string.
pub open spec fn optional_text(text: Option<String>) -> Option<Seq<char>> {
    match text {
        Some(t) => Some(t@),
        None => None,
    }
}

/// An optional text that is borrowed, by its characters.
pub open spec fn borrowed_text(text: Option<&str>) -> Option<Seq<char>> {
    match text {
        Some(t) => Some(t@),
        None => None,
    }
}

/// How long a run is whose end is known.
pub proof fn lemma_run_ends(text: Seq<char>, stop: spec_fn(char) -> bool, end: nat)
    requires
        end <= text.len(),
        forall|i: int| 0 <= i < end ==> !#[trigger] stop(text[i]),
        end < text.len() ==> stop(text[end as int]),
    ensures
        run_len(text, stop) == end,
    decreases text.len(),
{
    if end > 0 {
        assert(!stop(text[0]));
        let rest = text.skip(1);
        assert forall|i: int| 0 <= i < end - 1 implies !#[trigger] stop(rest[i]) by {
            assert(rest[i] == text[i + 1]);
        }
        lemma_run_ends(rest, stop, (end - 1) as nat);
    }
}

/// White space parts words: the words of a text are those on the one side of a white space
/// character of it and then those on the other.
pub proof fn law_white_space_parts_words(left: Seq<char>, space: char, right: Seq<char>)
    requires
        is_space(space),
    ensures
        words(left + seq![space] + right) == words(left) + words(right),
    decreases left.len(),
{
    let whole = left + seq![space] + right;
    if left.len() == 0 {
        assert(whole.skip(1) =~= right);
        assert(spaces()(whole[0]));
        assert(strip_start(whole, spaces()) == strip_start(right, spaces()));
        assert(words(left) =~= Seq::empty());
        assert(words(whole) =~= words(left) + words(right));
    } else if is_space(left[0]) {
        law_white_space_parts_words(left.skip(1), space, right);
        assert(whole.skip(1) =~= left.skip(1) + seq![space] + right);
        assert(spaces()(whole[0]));
        assert(spaces()(left[0]));
        assert(words(whole) == words(whole.skip(1)));
        assert(words(left) == words(left.skip(1)));
    } else {
        let n = run_len(left, spaces()) as int;
        lemma_run_len(left, spaces());
        assert(!spaces()(left[0]));
        assert(!spaces()(whole[0]));
        assert forall|i: int| 0 <= i < n implies !#[trigger] spaces()(whole[i]) by {
            assert(!spaces()(left[i]));
        }
        if n < left.len() {
            assert(spaces()(whole[n])) by {
                assert(spaces()(left[n]));
            }
        } else {
            assert(spaces()(whole[n]));
        }
        lemma_run_ends(whole, spaces(), n as nat);
        assert(whole.take(n) =~= left.take(n));
        assert(whole.skip(n) =~= left.skip(n) + seq![space] + right);
        law_white_space_parts_words(left.skip(n), space, right);
        assert(words(whole) =~= words(left) + words(right));
    }
}

/// A text without white space is one word, and one of white space alone has none.
pub proof fn law_words_are_what_white_space_parts(text: Seq<char>)
    ensures
        text.len() > 0 && (forall|i: int| 0 <= i < text.len() ==> !is_space(#[trigger] text[i]))
            ==> words(text) == seq![text],
        trimmed(text).len() == 0 <==> words(text).len() == 0,
{
    if text.len() > 0 && (forall|i: int| 0 <= i < text.len() ==> !is_space(#[trigger] text[i])) {
        assert(!spaces()(text[0]));
        lemma_run_ends(text, spaces(), text.len());
        assert(text.take(text.len() as int) =~= text);
        assert(text.skip(text.len() as int) =~= Seq::empty());
        assert(words(Seq::<char>::empty()) =~= Seq::empty());
        assert(words(text) =~= seq![text]);
    }
    lemma_strip_start(text, spaces());
    lemma_trimmed(text);
    let rest = strip_start(text, spaces());
    if rest.len() > 0 {
        assert(!spaces()(rest[0]));
        assert(text[text.len() - rest.len()] == rest[0]);
    } else {
        assert forall|i: int| 0 <= i < text.len() implies is_space(#[trigger] text[i]) by {
            assert(spaces()(text[i]));
        }
    }
}

/// A line feed parts lines, and so does one behind a carriage return; what stands before the
/// first of them is the first line.
pub proof fn law_line_feed_parts_lines(line: Seq<char>, rest: Seq<char>)
    requires
        forall|i: int| 0 <= i < line.len() ==> #[trigger] line[i] != '\n',
    ensures
        lines(line + seq!['\n'] + rest) == seq![
            if line.len() > 0 && line.last() == '\r' {
                line.drop_last()
            } else {
                line
            },
        ] + lines(rest),
        lines(line) == (if line.len() == 0 {
            Seq::empty()
        } else {
            seq![line]
        }),
{
    let whole = line + seq!['\n'] + rest;
    let n = line.len();
    assert forall|i: int| 0 <= i < n implies !#[trigger] line_feed()(whole[i]) by {
        assert(whole[i] == line[i]);
    }
    assert(line_feed()(whole[n as int]));
    lemma_run_ends(whole, line_feed(), n);
    assert(whole.take(n as int) =~= line);
    assert(whole.skip(n as int + 1) =~= rest);
    assert forall|i: int| 0 <= i < n implies !#[trigger] line_feed()(line[i]) by {}
    lemma_run_ends(line, line_feed(), n);
}

/// Texts that are joined stand one behind the other, each with the separator before it but
/// the first.
pub proof fn law_joined_texts_stand_in_order(
    left: Seq<Seq<char>>,
    right: Seq<Seq<char>>,
    separator: Seq<char>,
    part: Seq<char>,
)
    ensures
        joined(Seq::empty(), separator).len() == 0,
        joined(seq![part], separator) == part,
        left.len() > 0 && right.len() > 0 ==> joined(left + right, separator) == joined(
            left,
            separator,
        ) + separator + joined(right, separator),
    decreases right.len(),
{
    if left.len() > 0 && right.len() > 0 {
        let whole = left + right;
        if right.len() == 1 {
            assert(whole.drop_last() =~= left);
            assert(whole.last() == right[0]);
        } else {
            law_joined_texts_stand_in_order(left, right.drop_last(), separator, part);
            assert(whole.drop_last() =~= left + right.drop_last());
            assert(joined(whole, separator) =~= joined(left, separator) + separator + joined(
                right,
                separator,
            ));
        }
    }
}

/// Two characters are the same, ASCII case aside, if they are the same or one is a letter of
/// ASCII and the other its capital.
pub proof fn law_case_is_that_of_ascii(a: char, b: char)
    ensures
        fold(a) == fold(b) <==> a == b || ('a' <= a <= 'z' && a as u32 == b as u32 + 32) || ('a'
            <= b <= 'z' && b as u32 == a as u32 + 32),
{
}

/// White space is what Unicode says it is: twenty-five characters.
pub proof fn law_white_space_is_that_of_unicode(c: char)
    ensures
        is_space(c) <==> {
            ||| 0x9 <= c as u32 <= 0xd
            ||| c as u32 == 0x20 || c as u32 == 0x85 || c as u32 == 0xa0 || c as u32 == 0x1680
            ||| 0x2000 <= c as u32 <= 0x200a
            ||| c as u32 == 0x2028 || c as u32 == 0x2029 || c as u32 == 0x202f
            ||| c as u32 == 0x205f || c as u32 == 0x3000
        },
{
}

/// Trimming takes white space off both ends, all of it and nothing else.
pub proof fn law_trimming_takes_white_space(front: Seq<char>, text: Seq<char>, back: Seq<char>)
    requires
        forall|i: int| 0 <= i < front.len() ==> is_space(#[trigger] front[i]),
        forall|i: int| 0 <= i < back.len() ==> is_space(#[trigger] back[i]),
        text.len() > 0 ==> !is_space(text[0]) && !is_space(text.last()),
    ensures
        trimmed(front + text + back) == text,
    decreases front.len() + back.len(),
{
    let whole = front + text + back;
    if front.len() > 0 {
        assert(is_space(front[0]) && whole[0] == front[0]);
        assert(spaces()(whole[0]));
        assert(whole.skip(1) =~= front.skip(1) + text + back);
        assert(strip_start(whole, spaces()) == strip_start(whole.skip(1), spaces()));
        assert forall|i: int| 0 <= i < front.skip(1).len() implies is_space(
            #[trigger] front.skip(1)[i],
        ) by {
            assert(front.skip(1)[i] == front[i + 1]);
        }
        law_trimming_takes_white_space(front.skip(1), text, back);
    } else if text.len() == 0 {
        lemma_trimmed(whole);
        assert forall|i: int| 0 <= i < whole.len() implies is_space(#[trigger] whole[i]) by {
            assert(whole[i] == back[i]);
        }
        assert(trimmed(whole) =~= text);
    } else {
        assert(whole[0] == text[0]);
        assert(!spaces()(whole[0]));
        assert(strip_start(whole, spaces()) == whole);
        if back.len() > 0 {
            assert(is_space(back[back.len() - 1]));
            assert(spaces()(whole.last()));
            let shorter = back.drop_last();
            assert(whole.drop_last() =~= front + text + shorter);
            assert forall|i: int| 0 <= i < shorter.len() implies is_space(
                #[trigger] shorter[i],
            ) by {
                assert(shorter[i] == back[i]);
            }
            law_trimming_takes_white_space(front, text, shorter);
            let rest = front + text + shorter;
            assert(rest[0] == text[0]);
            assert(strip_start(rest, spaces()) == rest);
        } else {
            assert(whole =~= text);
            assert(!spaces()(whole.last()));
        }
    }
}

/// A text stands in another where that is something, the text and something else.
pub proof fn law_text_stands_between(
    left: Seq<char>,
    text: Seq<char>,
    right: Seq<char>,
    hay: Seq<char>,
)
    ensures
        occurs(left + text + right, text),
        occurs(hay, text) ==> exists|front: Seq<char>, back: Seq<char>|
            hay == #[trigger] (front + text + back),
{
    let whole = left + text + right;
    let at = left.len() as int;
    assert(whole.subrange(at, at + text.len()) =~= text);
    assert(occurs_at(whole, text, at));
    if occurs(hay, text) {
        let place = choose|place: int| occurs_at(hay, text, place);
        let front = hay.take(place);
        let back = hay.skip(place + text.len());
        assert(hay =~= front + text + back);
    }
}

} // verus!
