//! Text primitives over character sequences: trimming, splitting, case,
//! comparison and replacement.

use vstd::prelude::*;
use vstd::slice::{slice_subrange, slice_to_vec};
use vstd::utf8::{encode_utf8, encode_utf8_decode_utf8};

verus! {

/// Trusted: `String::push` appends one character to the end of the text.
pub assume_specification[ String::push ](text: &mut String, c: char)
    ensures
        final(text)@ == old(text)@.push(c),
;

/// The characters of `text`.
pub fn chars_of(text: &str) -> (chars: Vec<char>)
    ensures
        chars@ == text@,
{
    let mut chars: Vec<char> = Vec::new();
    for c in iter: text.chars()
        invariant
            chars@ == iter.seq().take(iter.index() as int),
    {
        chars.push(c);
    }
    chars
}

/// The string made of `chars`.
pub fn string_of(chars: &[char]) -> (text: String)
    ensures
        text@ == chars@,
{
    let mut text = String::new();
    let mut i: usize = 0;
    while i < chars.len()
        invariant
            i <= chars@.len(),
            text@ == chars@.take(i as int),
        decreases chars@.len() - i,
    {
        text.push(chars[i]);
        i = i + 1;
    }
    text
}

/// The views of a list of strings.
pub open spec fn string_views(texts: Seq<String>) -> Seq<Seq<char>> {
    texts.map_values(|text: String| text@)
}

/// The same strings once more.
pub fn copy_strings(texts: &Vec<String>) -> (copies: Vec<String>)
    ensures
        string_views(copies@) == string_views(texts@),
{
    let mut copies: Vec<String> = Vec::new();
    let mut i: usize = 0;
    while i < texts.len()
        invariant
            i <= texts@.len(),
            copies@ == texts@.take(i as int),
        decreases texts@.len() - i,
    {
        copies.push(texts[i].clone());
        i = i + 1;
    }
    assert(copies@ =~= texts@);
    copies
}

/// Whether two texts are the same.
pub fn same_text(a: &str, b: &str) -> (same: bool)
    ensures
        same == (a@ == b@),
{
    let left = a.as_bytes();
    let right = b.as_bytes();
    proof {
        encode_utf8_decode_utf8(a@);
        encode_utf8_decode_utf8(b@);
    }
    if left.len() != right.len() {
        return false;
    }
    let mut i: usize = 0;
    while i < left.len()
        invariant
            i <= left@.len(),
            left@.len() == right@.len(),
            left@ == encode_utf8(a@),
            right@ == encode_utf8(b@),
            left@.take(i as int) == right@.take(i as int),
        decreases left@.len() - i,
    {
        if left[i] != right[i] {
            assert(left@ != right@);
            return false;
        }
        assert(left@.take(i + 1) == left@.take(i as int).push(left@[i as int]));
        assert(right@.take(i + 1) == right@.take(i as int).push(right@[i as int]));
        i = i + 1;
    }
    assert(left@.take(i as int) == left@);
    assert(right@.take(i as int) == right@);
    true
}

/// Whether two character slices hold the same characters.
pub fn same_chars(a: &[char], b: &[char]) -> (same: bool)
    ensures
        same == (a@ == b@),
{
    if a.len() != b.len() {
        return false;
    }
    let mut i: usize = 0;
    while i < a.len()
        invariant
            i <= a@.len(),
            a@.len() == b@.len(),
            forall|k: int| 0 <= k < i ==> a@[k] == b@[k],
        decreases a@.len() - i,
    {
        if a[i] != b[i] {
            return false;
        }
        i = i + 1;
    }
    assert(a@ =~= b@);
    true
}

/// Whether `text` begins with `prefix`.
pub fn begins_with(text: &[char], prefix: &[char]) -> (yes: bool)
    ensures
        yes == prefix@.is_prefix_of(text@),
{
    if text.len() < prefix.len() {
        return false;
    }
    let mut i: usize = 0;
    while i < prefix.len()
        invariant
            i <= prefix@.len() <= text@.len(),
            forall|k: int| 0 <= k < i ==> prefix@[k] == text@[k],
        decreases prefix@.len() - i,
    {
        if text[i] != prefix[i] {
            assert(text@.subrange(0, prefix@.len() as int)[i as int] != prefix@[i as int]);
            return false;
        }
        i = i + 1;
    }
    assert(prefix@ =~= text@.subrange(0, prefix@.len() as int));
    true
}

/// Whether `text` ends with `suffix`.
pub fn ends_with(text: &[char], suffix: &[char]) -> (yes: bool)
    ensures
        yes == suffix@.is_suffix_of(text@),
{
    if text.len() < suffix.len() {
        return false;
    }
    let tail = slice_subrange(text, text.len() - suffix.len(), text.len());
    same_chars(suffix, tail)
}

// ---------------------------------------------------------------------------
// Trimming

/// The White_Space property of Unicode.
pub open spec fn white_space(c: char) -> bool {
    ||| '\u{9}' <= c <= '\u{d}'
    ||| c == ' '
    ||| c == '\u{85}'
    ||| c == '\u{a0}'
    ||| c == '\u{1680}'
    ||| '\u{2000}' <= c <= '\u{200a}'
    ||| c == '\u{2028}'
    ||| c == '\u{2029}'
    ||| c == '\u{202f}'
    ||| c == '\u{205f}'
    ||| c == '\u{3000}'
}

/// Whether `c` is white space.
pub fn is_white_space(c: char) -> (yes: bool)
    ensures
        yes == white_space(c),
{
    ('\u{9}' <= c && c <= '\u{d}') || c == ' ' || c == '\u{85}' || c == '\u{a0}' || c == '\u{1680}'
        || ('\u{2000}' <= c && c <= '\u{200a}') || c == '\u{2028}' || c == '\u{2029}' || c
        == '\u{202f}' || c == '\u{205f}' || c == '\u{3000}'
}

/// `text` without the longest run of characters in `set` at its beginning.
pub open spec fn skip_front(text: Seq<char>, set: spec_fn(char) -> bool) -> Seq<char>
    decreases text.len(),
{
    if text.len() > 0 && set(text[0]) {
        skip_front(text.drop_first(), set)
    } else {
        text
    }
}

/// `text` without the longest run of characters in `set` at its end.
pub open spec fn skip_back(text: Seq<char>, set: spec_fn(char) -> bool) -> Seq<char>
    decreases text.len(),
{
    if text.len() > 0 && set(text.last()) {
        skip_back(text.drop_last(), set)
    } else {
        text
    }
}

/// `text` without leading white space.
pub open spec fn trimmed_front(text: Seq<char>) -> Seq<char> {
    skip_front(text, |c: char| white_space(c))
}

/// `text` without leading and trailing white space.
pub open spec fn trimmed(text: Seq<char>) -> Seq<char> {
    skip_back(trimmed_front(text), |c: char| white_space(c))
}

/// The characters equal to `mark`.
pub open spec fn just(mark: char) -> spec_fn(char) -> bool {
    |c: char| c == mark
}

/// `text` without the run of `mark` at its beginning.
pub open spec fn without_leading(text: Seq<char>, mark: char) -> Seq<char> {
    skip_front(text, just(mark))
}

/// What is left does not begin with the mark.
pub proof fn lemma_without_leading(text: Seq<char>, mark: char)
    ensures
        without_leading(text, mark).len() > 0 ==> without_leading(text, mark)[0] != mark,
    decreases text.len(),
{
    if text.len() > 0 && text[0] == mark {
        lemma_without_leading(text.drop_first(), mark);
    }
}

/// `text` without the run of `mark` at its end.
pub open spec fn without_trailing(text: Seq<char>, mark: char) -> Seq<char> {
    skip_back(text, just(mark))
}

proof fn lemma_skip_front(text: Seq<char>, set: spec_fn(char) -> bool, n: int)
    requires
        0 <= n <= text.len(),
        forall|k: int| 0 <= k < n ==> #[trigger] set(text[k]),
        n < text.len() ==> !set(text[n]),
    ensures
        skip_front(text, set) == text.skip(n),
    decreases n,
{
    if n == 0 {
        assert(text.skip(0) =~= text);
    } else {
        assert(set(text[0]));
        assert forall|k: int| 0 <= k < n - 1 implies #[trigger] set(text.drop_first()[k]) by {
            assert(text.drop_first()[k] == text[k + 1]);
        }
        lemma_skip_front(text.drop_first(), set, n - 1);
        assert(text.drop_first().skip(n - 1) =~= text.skip(n));
    }
}

proof fn lemma_skip_back(text: Seq<char>, set: spec_fn(char) -> bool, n: int)
    requires
        0 <= n <= text.len(),
        forall|k: int| n <= k < text.len() ==> #[trigger] set(text[k]),
        n > 0 ==> !set(text[n - 1]),
    ensures
        skip_back(text, set) == text.take(n),
    decreases text.len() - n,
{
    if n == text.len() {
        assert(text.take(n) =~= text);
    } else {
        assert(set(text[text.len() - 1]));
        lemma_skip_back(text.drop_last(), set, n);
        assert(text.drop_last().take(n) =~= text.take(n));
    }
}

/// `text` without leading white space.
pub fn trim_front(text: &[char]) -> (rest: &[char])
    ensures
        rest@ == trimmed_front(text@),
{
    let ghost set = |c: char| white_space(c);
    let mut start: usize = 0;
    while start < text.len() && is_white_space(text[start])
        invariant
            start <= text@.len(),
            set == (|c: char| white_space(c)),
            forall|k: int| 0 <= k < start ==> #[trigger] set(text@[k]),
        decreases text@.len() - start,
    {
        start = start + 1;
    }
    proof {
        lemma_skip_front(text@, set, start as int);
        assert(text@.skip(start as int) =~= text@.subrange(start as int, text@.len() as int));
    }
    slice_subrange(text, start, text.len())
}

/// `text` without leading and trailing white space.
pub fn trim(text: &[char]) -> (inner: &[char])
    ensures
        inner@ == trimmed(text@),
{
    let rest = trim_front(text);
    let ghost set = |c: char| white_space(c);
    let mut end: usize = rest.len();
    while end > 0 && is_white_space(rest[end - 1])
        invariant
            end <= rest@.len(),
            set == (|c: char| white_space(c)),
            forall|k: int| end <= k < rest@.len() ==> #[trigger] set(rest@[k]),
        decreases end,
    {
        end = end - 1;
    }
    proof {
        lemma_skip_back(rest@, set, end as int);
        assert(rest@.take(end as int) =~= rest@.subrange(0, end as int));
    }
    slice_subrange(rest, 0, end)
}

/// `text` without the run of `mark` at its beginning.
pub fn trim_leading(text: &[char], mark: char) -> (rest: &[char])
    ensures
        rest@ == without_leading(text@, mark),
{
    let ghost set = just(mark);
    let mut start: usize = 0;
    while start < text.len() && text[start] == mark
        invariant
            start <= text@.len(),
            set == just(mark),
            forall|k: int| 0 <= k < start ==> #[trigger] set(text@[k]),
        decreases text@.len() - start,
    {
        start = start + 1;
    }
    proof {
        lemma_skip_front(text@, set, start as int);
        assert(text@.skip(start as int) =~= text@.subrange(start as int, text@.len() as int));
    }
    slice_subrange(text, start, text.len())
}

/// `text` without the run of `mark` at its end.
pub fn trim_trailing(text: &[char], mark: char) -> (rest: &[char])
    ensures
        rest@ == without_trailing(text@, mark),
{
    let ghost set = just(mark);
    let mut end: usize = text.len();
    while end > 0 && text[end - 1] == mark
        invariant
            end <= text@.len(),
            set == just(mark),
            forall|k: int| end <= k < text@.len() ==> #[trigger] set(text@[k]),
        decreases end,
    {
        end = end - 1;
    }
    proof {
        lemma_skip_back(text@, set, end as int);
        assert(text@.take(end as int) =~= text@.subrange(0, end as int));
    }
    slice_subrange(text, 0, end)
}

// ---------------------------------------------------------------------------
// Splitting

/// The index of the first `mark` in `items`, or their number where there is none.
pub open spec fn position<T>(items: Seq<T>, mark: T) -> nat
    decreases items.len(),
{
    if items.len() == 0 || items[0] == mark {
        0
    } else {
        1 + position(items.drop_first(), mark)
    }
}

/// The pieces of `items` between the occurrences of `mark`.
pub open spec fn split_on<T>(items: Seq<T>, mark: T) -> Seq<Seq<T>>
    decreases items.len(),
{
    let at = position(items, mark) as int;
    if at >= items.len() {
        seq![items]
    } else {
        seq![items.take(at)] + split_on(items.skip(at + 1), mark)
    }
}

/// Where `position` stops.
pub proof fn lemma_position<T>(items: Seq<T>, mark: T)
    ensures
        position(items, mark) <= items.len(),
        forall|k: int| 0 <= k < position(items, mark) ==> items[k] != mark,
        position(items, mark) < items.len() ==> items[position(items, mark) as int] == mark,
    decreases items.len(),
{
    if items.len() > 0 && items[0] != mark {
        let rest = items.drop_first();
        lemma_position(rest, mark);
        assert forall|k: int| 0 <= k < position(items, mark) implies items[k] != mark by {
            if k > 0 {
                assert(items[k] == rest[k - 1]);
            }
        }
    }
}

/// `position` is the only index with what `lemma_position` says of it.
pub proof fn lemma_position_is<T>(items: Seq<T>, mark: T, at: int)
    requires
        0 <= at <= items.len(),
        forall|k: int| 0 <= k < at ==> items[k] != mark,
        at < items.len() ==> items[at] == mark,
    ensures
        position(items, mark) == at,
{
    lemma_position(items, mark);
    let p = position(items, mark) as int;
    if p < at {
        assert(items[p] == mark);
    } else if at < p {
        assert(items[at] == mark);
    }
}

/// The views of a list of character vectors.
pub open spec fn views_of(pieces: Seq<Vec<char>>) -> Seq<Seq<char>> {
    pieces.map_values(|piece: Vec<char>| piece@)
}

/// The index of the first `mark` in `text`.
pub fn find(text: &[char], mark: char) -> (at: Option<usize>)
    ensures
        match at {
            Some(i) => i == position(text@, mark) && i < text@.len(),
            None => position(text@, mark) == text@.len(),
        },
{
    let mut i: usize = 0;
    while i < text.len()
        invariant
            i <= text@.len(),
            forall|k: int| 0 <= k < i ==> text@[k] != mark,
        decreases text@.len() - i,
    {
        if text[i] == mark {
            proof {
                lemma_position_is(text@, mark, i as int);
            }
            return Some(i);
        }
        i = i + 1;
    }
    proof {
        lemma_position_is(text@, mark, i as int);
    }
    None
}

/// The pieces of `text` between the occurrences of `mark`.
pub fn split(text: &[char], mark: char) -> (pieces: Vec<Vec<char>>)
    ensures
        views_of(pieces@) == split_on(text@, mark),
        pieces@.len() > 0,
{
    let mut pieces: Vec<Vec<char>> = Vec::new();
    let mut start: usize = 0;
    assert(text@.skip(0) =~= text@);
    assert(views_of(pieces@) + split_on(text@, mark) =~= split_on(text@, mark));
    loop
        invariant
            start <= text@.len(),
            views_of(pieces@) + split_on(text@.skip(start as int), mark) == split_on(text@, mark),
        decreases text@.len() - start,
    {
        let rest = slice_subrange(text, start, text.len());
        assert(rest@ =~= text@.skip(start as int));
        match find(rest, mark) {
            Some(at) => {
                let piece = slice_to_vec(slice_subrange(rest, 0, at));
                let ghost before = views_of(pieces@);
                pieces.push(piece);
                proof {
                    assert(views_of(pieces@) =~= before.push(piece@));
                    assert(piece@ =~= rest@.take(at as int));
                    assert(rest@.skip(at + 1) =~= text@.skip(start + at + 1));
                    assert(before + (seq![rest@.take(at as int)] + split_on(rest@.skip(at + 1), mark))
                        =~= before.push(piece@) + split_on(rest@.skip(at + 1), mark));
                }
                start = start + at + 1;
            },
            None => {
                let piece = slice_to_vec(rest);
                let ghost before = views_of(pieces@);
                pieces.push(piece);
                proof {
                    assert(piece@ =~= rest@);
                    assert(views_of(pieces@) =~= before.push(piece@));
                    assert(before + seq![rest@] =~= before.push(piece@));
                }
                return pieces;
            },
        }
    }
}

/// The text before the first `mark` and the text after it.
pub open spec fn split_first(text: Seq<char>, mark: char) -> Option<(Seq<char>, Seq<char>)> {
    let at = position(text, mark) as int;
    if at < text.len() {
        Some((text.take(at), text.skip(at + 1)))
    } else {
        None
    }
}

/// The text before the first `mark` and the text after it.
pub fn split_once(text: &[char], mark: char) -> (halves: Option<(&[char], &[char])>)
    ensures
        match halves {
            Some(pair) => split_first(text@, mark) == Some((pair.0@, pair.1@)),
            None => split_first(text@, mark) is None,
        },
{
    let end = text.len();
    match find(text, mark) {
        Some(at) => {
            let before = slice_subrange(text, 0, at);
            let after = slice_subrange(text, at + 1, end);
            assert(before@ =~= text@.take(at as int));
            assert(after@ =~= text@.skip(at + 1));
            Some((before, after))
        },
        None => None,
    }
}

/// A line without the carriage return that ends it.
pub open spec fn without_return(line: Seq<char>) -> Seq<char> {
    if line.len() > 0 && line.last() == '\r' {
        line.drop_last()
    } else {
        line
    }
}

/// The lines of `text`: every piece that a line feed ends, without the line
/// feed and a carriage return before it, and what follows the last line feed
/// where that is not empty.
pub open spec fn lines_of(text: Seq<char>) -> Seq<Seq<char>> {
    let pieces = split_on(text, '\n');
    let ended = Seq::new((pieces.len() - 1) as nat, |i: int| without_return(pieces[i]));
    if pieces.last().len() == 0 {
        ended
    } else {
        ended.push(pieces.last())
    }
}

/// `split_on` never gives an empty list.
pub proof fn lemma_split_not_empty<T>(items: Seq<T>, mark: T)
    ensures
        split_on(items, mark).len() > 0,
{
}

/// The lines of `text`.
pub fn lines(text: &[char]) -> (found: Vec<Vec<char>>)
    ensures
        views_of(found@) == lines_of(text@),
{
    let pieces = split(text, '\n');
    let ghost all = split_on(text@, '\n');
    let mut found: Vec<Vec<char>> = Vec::new();
    let last = pieces.len() - 1;
    let mut i: usize = 0;
    while i < last
        invariant
            i <= last,
            last == pieces@.len() - 1,
            views_of(pieces@) == all,
            found@.len() == i,
            forall|k: int| 0 <= k < i ==> (#[trigger] found@[k])@ == without_return(all[k]),
        decreases last - i,
    {
        let piece = &pieces[i];
        assert(piece@ == all[i as int]);
        let n = piece.len();
        if n > 0 && piece[n - 1] == '\r' {
            let line = slice_to_vec(slice_subrange(piece.as_slice(), 0, n - 1));
            assert(line@ =~= piece@.drop_last());
            found.push(line);
        } else {
            let line = slice_to_vec(piece.as_slice());
            assert(line@ =~= piece@);
            found.push(line);
        }
        i = i + 1;
    }
    let tail = &pieces[last];
    assert(tail@ == all[last as int]);
    if tail.len() > 0 {
        let line = slice_to_vec(tail.as_slice());
        assert(line@ =~= tail@);
        found.push(line);
    }
    assert(views_of(found@) =~= lines_of(text@));
    found
}

/// The first run of characters that are not white space.
pub open spec fn first_word(text: Seq<char>) -> Option<Seq<char>> {
    let rest = trimmed_front(text);
    if rest.len() == 0 {
        None
    } else {
        Some(rest.take(word_length(rest) as int))
    }
}

/// How many characters stand before the first white space.
pub open spec fn word_length(text: Seq<char>) -> nat
    decreases text.len(),
{
    if text.len() == 0 || white_space(text[0]) {
        0
    } else {
        1 + word_length(text.drop_first())
    }
}

proof fn lemma_word_length(text: Seq<char>, n: int)
    requires
        0 <= n <= text.len(),
        forall|k: int| 0 <= k < n ==> !white_space(text[k]),
        n < text.len() ==> white_space(text[n]),
    ensures
        word_length(text) == n,
    decreases n,
{
    if n > 0 {
        assert(!white_space(text[0]));
        lemma_word_length(text.drop_first(), n - 1);
    }
}

/// The first run of characters that are not white space.
pub fn word(text: &[char]) -> (found: Option<&[char]>)
    ensures
        match found {
            Some(w) => first_word(text@) == Some(w@),
            None => first_word(text@) is None,
        },
{
    let rest = trim_front(text);
    if rest.len() == 0 {
        return None;
    }
    let mut end: usize = 0;
    while end < rest.len() && !is_white_space(rest[end])
        invariant
            end <= rest@.len(),
            forall|k: int| 0 <= k < end ==> !white_space(rest@[k]),
        decreases rest@.len() - end,
    {
        end = end + 1;
    }
    proof {
        lemma_word_length(rest@, end as int);
        assert(rest@.take(end as int) =~= rest@.subrange(0, end as int));
    }
    Some(slice_subrange(rest, 0, end))
}

// ---------------------------------------------------------------------------
// Case

/// The ASCII lower case of `c`.
pub open spec fn lower_char(c: char) -> char {
    if 'A' <= c <= 'Z' {
        ((c as u8 + 32) as u8) as char
    } else {
        c
    }
}

/// The ASCII upper case of `c`.
pub open spec fn upper_char(c: char) -> char {
    if 'a' <= c <= 'z' {
        ((c as u8 - 32) as u8) as char
    } else {
        c
    }
}

/// `text` with its ASCII letters in lower case.
pub open spec fn lower(text: Seq<char>) -> Seq<char> {
    text.map_values(|c: char| lower_char(c))
}

/// Whether two texts differ at most in the case of ASCII letters.
pub open spec fn same_but_case(a: Seq<char>, b: Seq<char>) -> bool {
    lower(a) == lower(b)
}

/// The ASCII lower case of `c`.
pub fn to_lower_char(c: char) -> (l: char)
    ensures
        l == lower_char(c),
{
    if 'A' <= c && c <= 'Z' {
        (c as u8 + 32) as char
    } else {
        c
    }
}

/// The ASCII upper case of `c`.
pub fn to_upper_char(c: char) -> (u: char)
    ensures
        u == upper_char(c),
{
    if 'a' <= c && c <= 'z' {
        (c as u8 - 32) as char
    } else {
        c
    }
}

/// `text` with its ASCII letters in lower case.
pub fn to_lower(text: &[char]) -> (low: Vec<char>)
    ensures
        low@ == lower(text@),
{
    let mut low: Vec<char> = Vec::new();
    let mut i: usize = 0;
    while i < text.len()
        invariant
            i <= text@.len(),
            low@ == lower(text@).take(i as int),
        decreases text@.len() - i,
    {
        low.push(to_lower_char(text[i]));
        i = i + 1;
    }
    assert(low@ =~= lower(text@));
    low
}

/// Whether two texts differ at most in the case of ASCII letters.
pub fn same_ignoring_case(a: &[char], b: &[char]) -> (same: bool)
    ensures
        same == same_but_case(a@, b@),
{
    let left = to_lower(a);
    let right = to_lower(b);
    same_chars(left.as_slice(), right.as_slice())
}

// ---------------------------------------------------------------------------
// Replacing

/// `text` with every occurrence of `from`, found from left to right and
/// without overlap, replaced by `to`. `from` is not empty.
pub open spec fn replaced(text: Seq<char>, from: Seq<char>, to: Seq<char>) -> Seq<char>
    decreases text.len(),
{
    if text.len() == 0 || from.len() == 0 {
        text
    } else if from.is_prefix_of(text) {
        to + replaced(text.skip(from.len() as int), from, to)
    } else {
        seq![text[0]] + replaced(text.drop_first(), from, to)
    }
}

/// `text` with every occurrence of `from` replaced by `to`.
pub fn replace(text: &[char], from: &[char], to: &[char]) -> (result: Vec<char>)
    requires
        from@.len() > 0,
    ensures
        result@ == replaced(text@, from@, to@),
{
    let mut result: Vec<char> = Vec::new();
    let mut i: usize = 0;
    assert(text@.skip(0) =~= text@);
    while i < text.len()
        invariant
            from@.len() > 0,
            i <= text@.len(),
            result@ + replaced(text@.skip(i as int), from@, to@) == replaced(text@, from@, to@),
        decreases text@.len() - i,
    {
        let rest = slice_subrange(text, i, text.len());
        assert(rest@ =~= text@.skip(i as int));
        let ghost before = result@;
        if begins_with(rest, from) {
            result.extend_from_slice(to);
            proof {
                assert(result@ =~= before + to@);
                assert(rest@.skip(from@.len() as int) =~= text@.skip(i + from@.len()));
                let tail = replaced(rest@.skip(from@.len() as int), from@, to@);
                assert(before + (to@ + tail) =~= (before + to@) + tail);
            }
            i = i + from.len();
        } else {
            result.push(text[i]);
            proof {
                assert(rest@.drop_first() =~= text@.skip(i + 1));
                let tail = replaced(rest@.drop_first(), from@, to@);
                assert(before + (seq![rest@[0]] + tail) =~= before.push(rest@[0]) + tail);
            }
            i = i + 1;
        }
    }
    assert(text@.skip(i as int).len() == 0);
    assert(result@ + replaced(text@.skip(i as int), from@, to@) =~= result@);
    result
}

// ---------------------------------------------------------------------------
// Lists

/// Pieces with a mark between them.
pub open spec fn listed(pieces: Seq<Seq<char>>, mark: char) -> Seq<char>
    decreases pieces.len(),
{
    if pieces.len() == 0 {
        Seq::empty()
    } else if pieces.len() == 1 {
        pieces[0]
    } else {
        pieces[0].push(mark) + listed(pieces.drop_first(), mark)
    }
}

/// Splitting at a mark between two texts splits each of them.
pub proof fn lemma_split_joined<T>(a: Seq<T>, b: Seq<T>, mark: T)
    ensures
        split_on(a.push(mark) + b, mark) == split_on(a, mark) + split_on(b, mark),
    decreases a.len(),
{
    let whole = a.push(mark) + b;
    lemma_position(a, mark);
    let at = position(a, mark) as int;
    assert forall|k: int| 0 <= k < at implies whole[k] != mark by {
        assert(whole[k] == a[k]);
    }
    assert(whole[at] == mark);
    lemma_position_is(whole, mark, at);
    if at == a.len() {
        assert(whole.take(at) =~= a);
        assert(whole.skip(at + 1) =~= b);
    } else {
        assert(whole.take(at) =~= a.take(at));
        assert(whole.skip(at + 1) =~= a.skip(at + 1).push(mark) + b);
        lemma_split_joined(a.skip(at + 1), b, mark);
        assert(seq![a.take(at)] + (split_on(a.skip(at + 1), mark) + split_on(b, mark)) =~= (
        seq![a.take(at)] + split_on(a.skip(at + 1), mark)) + split_on(b, mark));
    }
}

/// A list is taken apart into the pieces that it was made of.
pub proof fn lemma_split_listed(pieces: Seq<Seq<char>>, mark: char)
    requires
        pieces.len() > 0,
        forall|i: int, k: int|
            0 <= i < pieces.len() && 0 <= k < pieces[i].len() ==> #[trigger] pieces[i][k] != mark,
    ensures
        split_on(listed(pieces, mark), mark) == pieces,
    decreases pieces.len(),
{
    lemma_position_is(pieces[0], mark, pieces[0].len() as int);
    assert(split_on(pieces[0], mark) =~= seq![pieces[0]]);
    if pieces.len() == 1 {
        assert(pieces =~= seq![pieces[0]]);
    } else {
        let rest = pieces.drop_first();
        assert forall|i: int, k: int|
            0 <= i < rest.len() && 0 <= k < rest[i].len() implies #[trigger] rest[i][k] != mark by {
            assert(rest[i] == pieces[i + 1]);
            assert(pieces[i + 1][k] != mark);
        }
        lemma_split_listed(rest, mark);
        lemma_split_joined(pieces[0], listed(rest, mark), mark);
        assert(seq![pieces[0]] + rest =~= pieces);
    }
}

// ---------------------------------------------------------------------------
// Laws

/// Trimming takes off white space at both ends, and nothing else.
pub proof fn law_trimmed(front: Seq<char>, inner: Seq<char>, back: Seq<char>)
    requires
        forall|k: int| 0 <= k < front.len() ==> white_space(#[trigger] front[k]),
        forall|k: int| 0 <= k < back.len() ==> white_space(#[trigger] back[k]),
        inner.len() > 0 ==> !white_space(inner[0]) && !white_space(inner.last()),
    ensures
        trimmed(front + inner + back) == inner,
{
    let text = front + inner + back;
    let set = |c: char| white_space(c);
    if inner.len() == 0 {
        assert forall|k: int| 0 <= k < text.len() implies #[trigger] set(text[k]) by {
            if k < front.len() {
                assert(text[k] == front[k]);
            } else {
                assert(text[k] == back[k - front.len()]);
            }
        }
        lemma_skip_front(text, set, text.len() as int);
        assert(trimmed_front(text).len() == 0);
        assert(trimmed(text) =~= inner);
    } else {
        let n = front.len() as int;
        assert forall|k: int| 0 <= k < n implies #[trigger] set(text[k]) by {
            assert(text[k] == front[k]);
        }
        assert(text[n] == inner[0]);
        lemma_skip_front(text, set, n);
        let rest = text.skip(n);
        assert(rest =~= inner + back);
        let m = inner.len() as int;
        assert forall|k: int| m <= k < rest.len() implies #[trigger] set(rest[k]) by {
            assert(rest[k] == back[k - m]);
        }
        assert(rest[m - 1] == inner.last());
        lemma_skip_back(rest, set, m);
        assert(rest.take(m) =~= inner);
    }
}

/// A run of the mark is taken off whole, at the beginning or at the end.
pub proof fn law_marks_are_taken_off(inner: Seq<char>, count: nat, mark: char)
    ensures
        inner.len() > 0 && inner[0] == mark || without_leading(
            Seq::new(count, |i: int| mark) + inner,
            mark,
        ) == inner,
        inner.len() > 0 && inner.last() == mark || without_trailing(
            inner + Seq::new(count, |i: int| mark),
            mark,
        ) == inner,
{
    let run = Seq::new(count, |i: int| mark);
    let set = just(mark);
    if inner.len() == 0 || inner[0] != mark {
        let text = run + inner;
        assert forall|k: int| 0 <= k < count implies #[trigger] set(text[k]) by {
            assert(text[k] == run[k]);
        }
        if inner.len() > 0 {
            assert(text[count as int] == inner[0]);
        }
        lemma_skip_front(text, set, count as int);
        assert(text.skip(count as int) =~= inner);
    }
    if inner.len() == 0 || inner.last() != mark {
        let text = inner + run;
        let n = inner.len() as int;
        assert forall|k: int| n <= k < text.len() implies #[trigger] set(text[k]) by {
            assert(text[k] == run[k - n]);
        }
        if n > 0 {
            assert(text[n - 1] == inner.last());
        }
        lemma_skip_back(text, set, n);
        assert(text.take(n) =~= inner);
    }
}

/// The pieces of a text hold no mark, and with a mark between them they are the
/// text again.
pub proof fn law_pieces_make_the_text(text: Seq<char>, mark: char)
    ensures
        split_on(text, mark).len() > 0,
        listed(split_on(text, mark), mark) == text,
        forall|i: int, k: int|
            0 <= i < split_on(text, mark).len() && 0 <= k < split_on(text, mark)[i].len()
                ==> #[trigger] split_on(text, mark)[i][k] != mark,
    decreases text.len(),
{
    lemma_position(text, mark);
    let at = position(text, mark) as int;
    let pieces = split_on(text, mark);
    if at < text.len() {
        let rest = text.skip(at + 1);
        law_pieces_make_the_text(rest, mark);
        let more = split_on(rest, mark);
        assert(pieces == seq![text.take(at)] + more);
        assert(pieces.drop_first() =~= more);
        assert(pieces[0].push(mark) + rest =~= text);
        assert forall|i: int, k: int|
            0 <= i < pieces.len() && 0 <= k < pieces[i].len() implies #[trigger] pieces[i][k]
            != mark by {
            if i > 0 {
                assert(pieces[i] == more[i - 1]);
                assert(more[i - 1][k] != mark);
            }
        }
    }
}

/// A text is parted at the first mark in it, and only where there is one.
pub proof fn law_parted_at_first(front: Seq<char>, back: Seq<char>, mark: char)
    requires
        forall|k: int| 0 <= k < front.len() ==> #[trigger] front[k] != mark,
    ensures
        split_first(front.push(mark) + back, mark) == Some((front, back)),
        split_first(front, mark) is None,
{
    let text = front.push(mark) + back;
    let at = front.len() as int;
    assert forall|k: int| 0 <= k < at implies text[k] != mark by {
        assert(text[k] == front[k]);
    }
    assert(text[at] == mark);
    lemma_position_is(text, mark, at);
    lemma_position_is(front, mark, at);
    assert(text.take(at) =~= front);
    assert(text.skip(at + 1) =~= back);
}

/// The first word of a text is what stands between the white space in front and
/// the white space that follows.
pub proof fn law_first_word(front: Seq<char>, found: Seq<char>, back: Seq<char>)
    requires
        forall|k: int| 0 <= k < front.len() ==> white_space(#[trigger] front[k]),
        forall|k: int| 0 <= k < found.len() ==> !white_space(#[trigger] found[k]),
        back.len() > 0 ==> white_space(back[0]),
    ensures
        found.len() > 0 ==> first_word(front + found + back) == Some(found),
        first_word(front) is None,
{
    let set = |c: char| white_space(c);
    assert forall|k: int| 0 <= k < front.len() implies #[trigger] set(front[k]) by {}
    lemma_skip_front(front, set, front.len() as int);
    if found.len() > 0 {
        let text = front + found + back;
        let n = front.len() as int;
        assert forall|k: int| 0 <= k < n implies #[trigger] set(text[k]) by {
            assert(text[k] == front[k]);
        }
        assert(text[n] == found[0]);
        lemma_skip_front(text, set, n);
        let rest = text.skip(n);
        assert(rest =~= found + back);
        assert forall|k: int| 0 <= k < found.len() implies !white_space(rest[k]) by {
            assert(rest[k] == found[k]);
        }
        if back.len() > 0 {
            assert(rest[found.len() as int] == back[0]);
        }
        lemma_word_length(rest, found.len() as int);
        assert(rest.take(found.len() as int) =~= found);
    }
}

/// A line ends at the first line feed, whether or not a carriage return stands
/// before it, and the other lines are those of what follows. What no line feed
/// ends is a line too, unless it is empty.
pub proof fn law_lines(line: Seq<char>, rest: Seq<char>)
    requires
        forall|k: int| 0 <= k < line.len() ==> #[trigger] line[k] != '\n',
    ensures
        lines_of(line.push('\r').push('\n') + rest) == seq![line] + lines_of(rest),
        line.len() == 0 || line.last() != '\r' ==> lines_of(line.push('\n') + rest) == seq![line]
            + lines_of(rest),
        line.len() > 0 ==> lines_of(line) == seq![line],
        lines_of(Seq::empty()) == Seq::<Seq<char>>::empty(),
{
    let more = split_on(rest, '\n');
    let returned = line.push('\r');
    assert forall|k: int| 0 <= k < returned.len() implies returned[k] != '\n' by {
        if k < line.len() {
            assert(returned[k] == line[k]);
        }
    }
    lemma_position_is(returned, '\n', returned.len() as int);
    lemma_position_is(line, '\n', line.len() as int);
    lemma_split_joined(returned, rest, '\n');
    lemma_split_joined(line, rest, '\n');
    assert(returned.drop_last() =~= line);
    assert(split_on(returned.push('\n') + rest, '\n') =~= seq![returned] + more);
    assert(split_on(line.push('\n') + rest, '\n') =~= seq![line] + more);
    assert((seq![returned] + more).last() == more.last());
    assert((seq![line] + more).last() == more.last());
    assert(lines_of(returned.push('\n') + rest) =~= seq![line] + lines_of(rest));
    if line.len() == 0 || line.last() != '\r' {
        assert(lines_of(line.push('\n') + rest) =~= seq![line] + lines_of(rest));
    }
    if line.len() > 0 {
        assert(lines_of(line) =~= seq![line]);
    }
    assert(lines_of(Seq::empty()) =~= Seq::<Seq<char>>::empty());
}

/// Only the letters from A to Z have another case, and it is the letter that
/// stands 32 places from them.
pub proof fn law_case_of_letters(c: char)
    ensures
        'A' <= c <= 'Z' ==> lower_char(c) as int == c as int + 32,
        !('A' <= c <= 'Z') ==> lower_char(c) == c,
        'a' <= c <= 'z' ==> upper_char(c) as int == c as int - 32,
        !('a' <= c <= 'z') ==> upper_char(c) == c,
        upper_char(lower_char(c)) == upper_char(c),
        lower_char(upper_char(c)) == lower_char(c),
{
}

/// Two texts are the same but for case where every character is the same or the
/// same letter in the other case, and nowhere else.
pub proof fn law_same_but_case(a: Seq<char>, b: Seq<char>)
    ensures
        same_but_case(a, b) <==> (a.len() == b.len() && forall|k: int|
            0 <= k < a.len() ==> {
                ||| #[trigger] a[k] == b[k]
                ||| ('A' <= a[k] <= 'Z' && b[k] as int == a[k] as int + 32)
                ||| ('a' <= a[k] <= 'z' && b[k] as int == a[k] as int - 32)
            }),
        lower(a).len() == a.len(),
        forall|k: int| 0 <= k < a.len() ==> #[trigger] lower(a)[k] == lower_char(a[k]),
{
    let one = lower(a);
    let two = lower(b);
    if one == two {
        assert forall|k: int| 0 <= k < a.len() implies ({
            ||| #[trigger] a[k] == b[k]
            ||| ('A' <= a[k] <= 'Z' && b[k] as int == a[k] as int + 32)
            ||| ('a' <= a[k] <= 'z' && b[k] as int == a[k] as int - 32)
        }) by {
            assert(one[k] == lower_char(a[k]));
            assert(two[k] == lower_char(b[k]));
        }
        assert(one.len() == two.len());
    }
    if a.len() == b.len() && forall|k: int|
        0 <= k < a.len() ==> {
            ||| #[trigger] a[k] == b[k]
            ||| ('A' <= a[k] <= 'Z' && b[k] as int == a[k] as int + 32)
            ||| ('a' <= a[k] <= 'z' && b[k] as int == a[k] as int - 32)
        } {
        assert forall|k: int| 0 <= k < a.len() implies one[k] == two[k] by {
            assert(a[k] == a[k]);
            assert(one[k] == lower_char(a[k]));
            assert(two[k] == lower_char(b[k]));
        }
        assert(one =~= two);
    }
}

/// A text in which the pattern stands first behind `front` is changed there, and
/// then in what follows.
pub proof fn law_replaced_in_place(
    front: Seq<char>,
    back: Seq<char>,
    from: Seq<char>,
    to: Seq<char>,
)
    requires
        from.len() > 0,
        forall|k: int|
            0 <= k < front.len() ==> !from.is_prefix_of(#[trigger] (front + from + back).skip(k)),
    ensures
        replaced(front + from + back, from, to) == front + to + replaced(back, from, to),
    decreases front.len(),
{
    let text = front + from + back;
    if front.len() == 0 {
        assert(text =~= from + back);
        assert(text.subrange(0, from.len() as int) =~= from);
        assert(text.skip(from.len() as int) =~= back);
        assert(front + to + replaced(back, from, to) =~= to + replaced(back, from, to));
    } else {
        let less = front.drop_first();
        let rest = less + from + back;
        assert(text.drop_first() =~= rest);
        assert(text.skip(0) =~= text);
        assert forall|k: int| 0 <= k < less.len() implies !from.is_prefix_of(
            #[trigger] rest.skip(k),
        ) by {
            assert(rest.skip(k) =~= text.skip(k + 1));
        }
        law_replaced_in_place(less, back, from, to);
        assert(seq![text[0]] + (less + to + replaced(back, from, to)) =~= front + to + replaced(
            back,
            from,
            to,
        ));
    }
}

/// The views of a list are those of its items, one by one and in their order.
pub proof fn law_views(texts: Seq<String>, pieces: Seq<Vec<char>>)
    ensures
        string_views(texts).len() == texts.len(),
        forall|i: int| 0 <= i < texts.len() ==> #[trigger] string_views(texts)[i] == texts[i]@,
        views_of(pieces).len() == pieces.len(),
        forall|i: int| 0 <= i < pieces.len() ==> #[trigger] views_of(pieces)[i] == pieces[i]@,
{
}

/// Pieces are listed with one mark between two of them, and none around them.
pub proof fn law_listed(piece: Seq<char>, pieces: Seq<Seq<char>>, mark: char)
    requires
        pieces.len() > 0,
    ensures
        listed(Seq::empty(), mark).len() == 0,
        listed(seq![piece], mark) == piece,
        listed(seq![piece] + pieces, mark) == piece + seq![mark] + listed(pieces, mark),
{
    let all = seq![piece] + pieces;
    assert(all.drop_first() =~= pieces);
    assert(piece.push(mark) + listed(pieces, mark) =~= piece + seq![mark] + listed(pieces, mark));
}

} // verus!
