//! Text handling on sequences of characters.
//!
//! The specification functions take a text as the sequence of its characters; the executable
//! functions work on slices of characters, so that a piece of a text is taken without copying.

use vstd::prelude::*;
use vstd::slice::slice_subrange;
use vstd::string::*;
use vstd::utf8::*;

verus! {

/// `String::push` of std appends one character.
pub assume_specification[ String::push ](text: &mut String, c: char)
    ensures
        final(text)@ == old(text)@.push(c),
;

/// `char::is_whitespace` of std tells whether a character has Unicode's White_Space property.
pub assume_specification[ char::is_whitespace ](c: char) -> (white: bool)
    ensures
        white == is_white(c),
;

/// The characters with Unicode's White_Space property.
pub open spec fn is_white(c: char) -> bool {
    ||| '\u{9}' <= c <= '\u{d}'
    ||| c == '\u{20}'
    ||| c == '\u{85}'
    ||| c == '\u{a0}'
    ||| c == '\u{1680}'
    ||| '\u{2000}' <= c <= '\u{200a}'
    ||| c == '\u{2028}'
    ||| c == '\u{2029}'
    ||| c == '\u{202f}'
    ||| c == '\u{205f}'
    ||| c == '\u{3000}'
}

// ---------------------------------------------------------------------------------------------
// Conversions and comparison
// ---------------------------------------------------------------------------------------------

/// The characters of a string, in order.
pub fn chars_of(text: &str) -> (chars: Vec<char>)
    ensures
        chars@ == text@,
{
    let mut chars: Vec<char> = Vec::new();
    for c in it: text.chars()
        invariant
            chars@ == it.seq().take(it.index()),
            it.seq() == text@,
    {
        chars.push(c);
        assert(it.seq().take(it.index() + 1) =~= it.seq().take(it.index()).push(c));
    }
    chars
}

/// The string made of the given characters.
pub fn text_of(chars: &[char]) -> (text: String)
    ensures
        text@ == chars@,
{
    let mut text = String::new();
    let mut i: usize = 0;
    while i < chars.len()
        invariant
            i <= chars@.len(),
            text@ == chars@.take(i as int),
        decreases chars@.len() - i,
    {
        text.push(chars[i]);
        assert(chars@.take(i + 1) =~= chars@.take(i as int).push(chars@[i as int]));
        i += 1;
    }
    assert(chars@.take(i as int) =~= chars@);
    text
}

/// Whether two texts are the same.
pub fn same_text(a: &str, b: &str) -> (same: bool)
    ensures
        same == (a@ == b@),
{
    broadcast use encode_utf8_decode_utf8;

    let left = a.as_bytes();
    let right = b.as_bytes();
    assert(encode_utf8(a@) == left@ && encode_utf8(b@) == right@);
    assert(a@ == decode_utf8(left@) && b@ == decode_utf8(right@));
    if left.len() != right.len() {
        return false;
    }
    let mut i: usize = 0;
    while i < left.len()
        invariant
            i <= left@.len(),
            left@.len() == right@.len(),
            left@ == encode_utf8(a@),
            right@ == encode_utf8(b@),
            left@.take(i as int) == right@.take(i as int),
        decreases left@.len() - i,
    {
        if left[i] != right[i] {
            return false;
        }
        assert(left@.take(i + 1) =~= left@.take(i as int).push(left@[i as int]));
        assert(right@.take(i + 1) =~= right@.take(i as int).push(right@[i as int]));
        i += 1;
    }
    assert(left@.take(i as int) =~= left@);
    assert(right@.take(i as int) =~= right@);
    true
}

/// Whether a text is among some strings.
pub fn contains_text(list: &Vec<String>, text: &str) -> (found: bool)
    ensures
        found == texts(list@).contains(text@),
{
    let mut i: usize = 0;
    while i < list.len()
        invariant
            i <= list@.len(),
            forall|j: int| 0 <= j < i ==> texts(list@)[j] != text@,
        decreases list@.len() - i,
    {
        if same_text(list[i].as_str(), text) {
            assert(texts(list@)[i as int] == text@);
            return true;
        }
        i += 1;
    }
    false
}

/// The text of an optional string.
pub open spec fn optional_text(text: Option<String>) -> Option<Seq<char>> {
    match text {
        Some(text) => Some(text@),
        None => None,
    }
}

/// Lexicographic order of byte sequences.
pub open spec fn lex_less(a: Seq<u8>, b: Seq<u8>) -> bool
    decreases a.len(),
{
    if b.len() == 0 {
        false
    } else if a.len() == 0 {
        true
    } else if a[0] != b[0] {
        a[0] < b[0]
    } else {
        lex_less(a.drop_first(), b.drop_first())
    }
}

/// The order of texts: that of their UTF-8 bytes.
pub open spec fn text_less(a: Seq<char>, b: Seq<char>) -> bool {
    lex_less(encode_utf8(a), encode_utf8(b))
}

proof fn lemma_lex_irreflexive(a: Seq<u8>)
    ensures
        !lex_less(a, a),
    decreases a.len(),
{
    if a.len() > 0 {
        lemma_lex_irreflexive(a.drop_first());
    }
}

proof fn lemma_lex_transitive(a: Seq<u8>, b: Seq<u8>, c: Seq<u8>)
    requires
        lex_less(a, b),
        lex_less(b, c),
    ensures
        lex_less(a, c),
    decreases a.len(),
{
    if a.len() > 0 && a[0] == b[0] && b[0] == c[0] {
        lemma_lex_transitive(a.drop_first(), b.drop_first(), c.drop_first());
    }
}

proof fn lemma_lex_total(a: Seq<u8>, b: Seq<u8>)
    ensures
        a == b || lex_less(a, b) || lex_less(b, a),
    decreases a.len(),
{
    if a.len() > 0 && b.len() > 0 {
        if a[0] == b[0] {
            lemma_lex_total(a.drop_first(), b.drop_first());
            if a.drop_first() == b.drop_first() {
                assert(a =~= seq![a[0]] + a.drop_first());
                assert(b =~= seq![b[0]] + b.drop_first());
            }
        }
    } else if a.len() == 0 && b.len() == 0 {
        assert(a =~= b);
    }
}

/// No text precedes itself.
pub proof fn lemma_text_irreflexive(a: Seq<char>)
    ensures
        !text_less(a, a),
{
    lemma_lex_irreflexive(encode_utf8(a));
}

/// The order of texts is transitive.
pub proof fn lemma_text_transitive(a: Seq<char>, b: Seq<char>, c: Seq<char>)
    requires
        text_less(a, b),
        text_less(b, c),
    ensures
        text_less(a, c),
{
    lemma_lex_transitive(encode_utf8(a), encode_utf8(b), encode_utf8(c));
}

/// Of two different texts one precedes the other.
pub proof fn lemma_text_total(a: Seq<char>, b: Seq<char>)
    ensures
        a == b || text_less(a, b) || text_less(b, a),
{
    broadcast use encode_utf8_decode_utf8;

    lemma_lex_total(encode_utf8(a), encode_utf8(b));
    assert(a == decode_utf8(encode_utf8(a)) && b == decode_utf8(encode_utf8(b)));
}

/// Whether `a` precedes `b`.
pub fn precedes(a: &str, b: &str) -> (less: bool)
    ensures
        less == text_less(a@, b@),
{
    let left = a.as_bytes();
    let right = b.as_bytes();
    let mut i: usize = 0;
    assert(left@.skip(0) =~= left@);
    assert(right@.skip(0) =~= right@);
    while i < left.len() && i < right.len()
        invariant
            left@ == encode_utf8(a@),
            right@ == encode_utf8(b@),
            i <= left@.len(),
            i <= right@.len(),
            text_less(a@, b@) == lex_less(left@.skip(i as int), right@.skip(i as int)),
        decreases left@.len() - i,
    {
        if left[i] != right[i] {
            return left[i] < right[i];
        }
        assert(left@.skip(i as int).drop_first() =~= left@.skip(i + 1));
        assert(right@.skip(i as int).drop_first() =~= right@.skip(i + 1));
        i += 1;
    }
    i < right.len()
}

// ---------------------------------------------------------------------------------------------
// Stripping
// ---------------------------------------------------------------------------------------------

/// Which characters are stripped from the ends of a text.
#[derive(Clone, Copy)]
pub enum Strip {
    /// White space.
    White,
    /// One given character.
    Only(char),
}

impl Strip {
    /// Whether `c` is one of the stripped characters.
    pub open spec fn drops(self, c: char) -> bool {
        match self {
            Strip::White => is_white(c),
            Strip::Only(only) => c == only,
        }
    }

    /// Executable form of [`Strip::drops`].
    pub fn matches_char(self, c: char) -> (dropped: bool)
        ensures
            dropped == self.drops(c),
    {
        match self {
            Strip::White => c.is_whitespace(),
            Strip::Only(only) => c == only,
        }
    }
}

/// `s` without its leading stripped characters.
pub open spec fn strip_front(s: Seq<char>, kind: Strip) -> Seq<char>
    decreases s.len(),
{
    if s.len() > 0 && kind.drops(s[0]) {
        strip_front(s.drop_first(), kind)
    } else {
        s
    }
}

/// `s` without its trailing stripped characters.
pub open spec fn strip_back(s: Seq<char>, kind: Strip) -> Seq<char>
    decreases s.len(),
{
    if s.len() > 0 && kind.drops(s.last()) {
        strip_back(s.drop_last(), kind)
    } else {
        s
    }
}

/// `s` without stripped characters at either end.
pub open spec fn stripped(s: Seq<char>, kind: Strip) -> Seq<char> {
    strip_back(strip_front(s, kind), kind)
}

/// `s` without white space at either end.
pub open spec fn trimmed(s: Seq<char>) -> Seq<char> {
    stripped(s, Strip::White)
}

/// A text without white space is not changed by trimming.
pub proof fn lemma_trimmed_solid(s: Seq<char>)
    requires
        forall|i: int| 0 <= i < s.len() ==> !is_white(#[trigger] s[i]),
    ensures
        trimmed(s) == s,
{
    if s.len() > 0 {
        assert(!is_white(s[0]) && !is_white(s[s.len() - 1]));
    }
}

/// Strips both ends of a text.
pub fn strip<'a>(chars: &'a [char], kind: Strip) -> (rest: &'a [char])
    ensures
        rest@ == stripped(chars@, kind),
{
    let mut start: usize = 0;
    assert(chars@.skip(0) =~= chars@);
    while start < chars.len() && kind.matches_char(chars[start])
        invariant
            start <= chars@.len(),
            strip_front(chars@, kind) == strip_front(chars@.skip(start as int), kind),
        decreases chars@.len() - start,
    {
        assert(chars@.skip(start as int).drop_first() =~= chars@.skip(start + 1));
        start += 1;
    }
    let ghost front = chars@.skip(start as int);
    assert(strip_front(chars@, kind) == front);
    let mut end: usize = chars.len();
    assert(chars@.subrange(start as int, end as int) =~= front);
    while end > start && kind.matches_char(chars[end - 1])
        invariant
            start <= end <= chars@.len(),
            strip_back(front, kind) == strip_back(
                chars@.subrange(start as int, end as int),
                kind,
            ),
        decreases end,
    {
        assert(chars@.subrange(start as int, end as int).drop_last() =~= chars@.subrange(
            start as int,
            end - 1,
        ));
        end -= 1;
    }
    slice_subrange(chars, start, end)
}

/// Removes the white space at both ends of a string.
pub fn trim(text: &str) -> (rest: String)
    ensures
        rest@ == trimmed(text@),
{
    let chars = chars_of(text);
    text_of(strip(chars.as_slice(), Strip::White))
}

// ---------------------------------------------------------------------------------------------
// Splitting
// ---------------------------------------------------------------------------------------------

/// The place of the first `c` in `s`, or the length of `s` where there is none.
pub open spec fn position(s: Seq<char>, c: char) -> int
    decreases s.len(),
{
    if s.len() == 0 || s[0] == c {
        0
    } else {
        1 + position(s.drop_first(), c)
    }
}

/// [`position`] is the place of a `c` that no other precedes, or the length where there is none.
pub proof fn lemma_position(s: Seq<char>, c: char, k: int)
    requires
        0 <= k <= s.len(),
        forall|j: int| 0 <= j < k ==> s[j] != c,
        k < s.len() ==> s[k] == c,
    ensures
        position(s, c) == k,
    decreases s.len(),
{
    if k > 0 {
        assert(s[0] != c);
        let rest = s.drop_first();
        assert forall|j: int| 0 <= j < k - 1 implies rest[j] != c by {
            assert(rest[j] == s[j + 1]);
        }
        if k < s.len() {
            assert(rest[k - 1] == s[k]);
        }
        lemma_position(rest, c, k - 1);
    }
}

/// Finds the first `c`, or gives the length of the text.
pub fn find(chars: &[char], c: char) -> (at: usize)
    ensures
        at == position(chars@, c),
        at <= chars@.len(),
        at < chars@.len() ==> chars@[at as int] == c,
{
    let mut i: usize = 0;
    while i < chars.len() && chars[i] != c
        invariant
            i <= chars@.len(),
            forall|j: int| 0 <= j < i ==> chars@[j] != c,
        decreases chars@.len() - i,
    {
        i += 1;
    }
    proof {
        lemma_position(chars@, c, i as int);
    }
    i
}

/// The pieces of `s` between the separators, in order; a text without a separator is one piece.
pub open spec fn pieces(s: Seq<char>, sep: char) -> Seq<Seq<char>>
    decreases s.len(),
{
    let at = position(s, sep);
    if 0 <= at < s.len() {
        seq![s.take(at)] + pieces(s.skip(at + 1), sep)
    } else {
        seq![s]
    }
}

/// The texts of a sequence of character vectors.
pub open spec fn views(parts: Seq<Vec<char>>) -> Seq<Seq<char>> {
    Seq::new(parts.len(), |i: int| parts[i]@)
}

/// The texts of a sequence of strings.
pub open spec fn texts(parts: Seq<String>) -> Seq<Seq<char>> {
    Seq::new(parts.len(), |i: int| parts[i]@)
}

/// Splits a text at every separator.
pub fn split(chars: &[char], sep: char) -> (parts: Vec<Vec<char>>)
    ensures
        views(parts@) == pieces(chars@, sep),
{
    let mut parts: Vec<Vec<char>> = Vec::new();
    let mut start: usize = 0;
    proof {
        assert(chars@.skip(0) =~= chars@);
        assert(views(parts@) + pieces(chars@, sep) =~= pieces(chars@, sep));
    }
    loop
        invariant
            start <= chars@.len(),
            views(parts@) + pieces(chars@.skip(start as int), sep) == pieces(chars@, sep),
        decreases chars@.len() - start,
    {
        let rest = slice_subrange(chars, start, chars.len());
        assert(rest@ =~= chars@.skip(start as int));
        let at = find(rest, sep);
        let piece = slice_subrange(rest, 0, at);
        let ghost before = parts@;
        parts.push(slice_to_vec(piece));
        assert(views(parts@) =~= views(before).push(piece@));
        assert(piece@ =~= rest@.take(at as int));
        if at == rest.len() {
            assert(rest@.take(at as int) =~= rest@);
            assert(views(parts@) =~= views(before) + seq![rest@]);
            return parts;
        }
        proof {
            assert(rest@.skip(at + 1) =~= chars@.skip(start + at + 1));
            assert(views(before) + (seq![piece@] + pieces(rest@.skip(at + 1), sep))
                =~= views(parts@) + pieces(chars@.skip(start + at + 1), sep));
        }
        start = start + at + 1;
    }
}

/// A vector with the characters of a slice.
pub fn slice_to_vec(chars: &[char]) -> (copy: Vec<char>)
    ensures
        copy@ == chars@,
{
    let mut copy: Vec<char> = Vec::new();
    let mut i: usize = 0;
    while i < chars.len()
        invariant
            i <= chars@.len(),
            copy@ == chars@.take(i as int),
        decreases chars@.len() - i,
    {
        copy.push(chars[i]);
        assert(chars@.take(i + 1) =~= chars@.take(i as int).push(chars@[i as int]));
        i += 1;
    }
    assert(chars@.take(i as int) =~= chars@);
    copy
}

/// The parts of `s` before and after its first separator, if it has one.
pub open spec fn halves(s: Seq<char>, sep: char) -> Option<(Seq<char>, Seq<char>)> {
    let at = position(s, sep);
    if at < s.len() {
        Some((s.take(at), s.skip(at + 1)))
    } else {
        None
    }
}

/// Splits a text at its first separator.
pub fn split_once<'a>(chars: &'a [char], sep: char) -> (parts: Option<(&'a [char], &'a [char])>)
    ensures
        match parts {
            Some((before, after)) => halves(chars@, sep) == Some((before@, after@)),
            None => halves(chars@, sep) is None,
        },
{
    let at = find(chars, sep);
    if at < chars.len() {
        let before = slice_subrange(chars, 0, at);
        let after = slice_subrange(chars, at + 1, chars.len());
        assert(before@ =~= chars@.take(at as int));
        assert(after@ =~= chars@.skip(at + 1));
        Some((before, after))
    } else {
        None
    }
}

/// How many characters precede the first white space.
pub open spec fn word_len(s: Seq<char>) -> int
    decreases s.len(),
{
    if s.len() == 0 || is_white(s[0]) {
        0
    } else {
        1 + word_len(s.drop_first())
    }
}

proof fn lemma_word_len(s: Seq<char>, k: int)
    requires
        0 <= k <= s.len(),
        forall|j: int| 0 <= j < k ==> !is_white(#[trigger] s[j]),
        k < s.len() ==> is_white(s[k]),
    ensures
        word_len(s) == k,
    decreases s.len(),
{
    if k > 0 {
        assert(!is_white(s[0]));
        let rest = s.drop_first();
        assert forall|j: int| 0 <= j < k - 1 implies !is_white(#[trigger] rest[j]) by {
            assert(rest[j] == s[j + 1]);
        }
        if k < s.len() {
            assert(rest[k - 1] == s[k]);
        }
        lemma_word_len(rest, k - 1);
    }
}

/// The maximal runs of characters other than white space, in order.
pub open spec fn words(s: Seq<char>) -> Seq<Seq<char>>
    decreases s.len(),
{
    if s.len() == 0 {
        seq![]
    } else if is_white(s[0]) {
        words(s.drop_first())
    } else if word_len(s) <= 0 || word_len(s) > s.len() {
        seq![]
    } else {
        seq![s.take(word_len(s))] + words(s.skip(word_len(s)))
    }
}

/// Splits a text at white space.
pub fn split_words(chars: &[char]) -> (parts: Vec<Vec<char>>)
    ensures
        views(parts@) == words(chars@),
{
    let mut parts: Vec<Vec<char>> = Vec::new();
    let mut start: usize = 0;
    proof {
        assert(chars@.skip(0) =~= chars@);
        assert(views(parts@) + words(chars@) =~= words(chars@));
    }
    while start < chars.len()
        invariant
            start <= chars@.len(),
            views(parts@) + words(chars@.skip(start as int)) == words(chars@),
        decreases chars@.len() - start,
    {
        let ghost rest = chars@.skip(start as int);
        if chars[start].is_whitespace() {
            assert(rest.drop_first() =~= chars@.skip(start + 1));
            start += 1;
        } else {
            let mut end: usize = start + 1;
            while end < chars.len() && !chars[end].is_whitespace()
                invariant
                    start < end <= chars@.len(),
                    forall|j: int| start <= j < end ==> !is_white(#[trigger] chars@[j]),
                decreases chars@.len() - end,
            {
                end += 1;
            }
            proof {
                assert forall|j: int| 0 <= j < end - start implies !is_white(
                    #[trigger] rest[j],
                ) by {
                    assert(rest[j] == chars@[start + j]);
                }
                lemma_word_len(rest, end - start);
            }
            let ghost before = parts@;
            let word = slice_subrange(chars, start, end);
            parts.push(slice_to_vec(word));
            proof {
                assert(word@ =~= rest.take(end - start));
                assert(rest.skip(end - start) =~= chars@.skip(end as int));
                assert(views(parts@) =~= views(before).push(word@));
                assert(views(before) + (seq![word@] + words(chars@.skip(end as int)))
                    =~= views(parts@) + words(chars@.skip(end as int)));
            }
            start = end;
        }
    }
    assert(views(parts@) + words(chars@.skip(start as int)) =~= views(parts@));
    parts
}

/// `s` without one carriage return at its end.
pub open spec fn without_return(s: Seq<char>) -> Seq<char> {
    if s.len() > 0 && s.last() == '\r' {
        s.drop_last()
    } else {
        s
    }
}

/// The lines of `s`: the pieces that a line feed ends, each without the carriage return before it,
/// and the rest, if any.
pub open spec fn lines(s: Seq<char>) -> Seq<Seq<char>>
    decreases s.len(),
{
    let at = position(s, '\n');
    if s.len() == 0 {
        seq![]
    } else if 0 <= at < s.len() {
        seq![without_return(s.take(at))] + lines(s.skip(at + 1))
    } else {
        seq![s]
    }
}

/// Splits a text into its lines.
pub fn split_lines(chars: &[char]) -> (parts: Vec<Vec<char>>)
    ensures
        views(parts@) == lines(chars@),
{
    let mut parts: Vec<Vec<char>> = Vec::new();
    let mut start: usize = 0;
    proof {
        assert(chars@.skip(0) =~= chars@);
        assert(views(parts@) + lines(chars@) =~= lines(chars@));
    }
    while start < chars.len()
        invariant
            start <= chars@.len(),
            views(parts@) + lines(chars@.skip(start as int)) == lines(chars@),
        decreases chars@.len() - start,
    {
        let rest = slice_subrange(chars, start, chars.len());
        assert(rest@ =~= chars@.skip(start as int));
        let at = find(rest, '\n');
        let ghost before = parts@;
        if at == rest.len() {
            parts.push(slice_to_vec(rest));
            assert(views(parts@) =~= views(before) + seq![rest@]);
            return parts;
        }
        let end: usize = if at > 0 && rest[at - 1] == '\r' {
            at - 1
        } else {
            at
        };
        let line = slice_subrange(rest, 0, end);
        parts.push(slice_to_vec(line));
        proof {
            assert(line@ =~= without_return(rest@.take(at as int)));
            assert(views(parts@) =~= views(before).push(line@));
            assert(rest@.skip(at + 1) =~= chars@.skip(start + at + 1));
            assert(views(before) + (seq![line@] + lines(rest@.skip(at + 1))) =~= views(parts@)
                + lines(chars@.skip(start + at + 1)));
        }
        start = start + at + 1;
    }
    assert(views(parts@) + lines(chars@.skip(start as int)) =~= views(parts@));
    parts
}

// ---------------------------------------------------------------------------------------------
// Case and replacement
// ---------------------------------------------------------------------------------------------

/// `c`, in lower case where it is an ASCII letter.
pub open spec fn ascii_lower(c: char) -> char {
    if 'A' <= c <= 'Z' {
        (c as u8 + 32) as u8 as char
    } else {
        c
    }
}

/// `s` with its ASCII letters in lower case.
pub open spec fn lowered(s: Seq<char>) -> Seq<char> {
    Seq::new(s.len(), |i: int| ascii_lower(s[i]))
}

/// Turns the ASCII letters of a text to lower case.
pub fn lower(chars: &[char]) -> (low: String)
    ensures
        low@ == lowered(chars@),
{
    let mut low = String::new();
    let mut i: usize = 0;
    while i < chars.len()
        invariant
            i <= chars@.len(),
            low@ == lowered(chars@).take(i as int),
        decreases chars@.len() - i,
    {
        let c = chars[i];
        if 'A' <= c && c <= 'Z' {
            low.push((c as u8 + 32) as char);
        } else {
            low.push(c);
        }
        assert(lowered(chars@).take(i + 1) =~= lowered(chars@).take(i as int).push(
            ascii_lower(c),
        ));
        i += 1;
    }
    assert(lowered(chars@).take(i as int) =~= lowered(chars@));
    low
}

/// Whether `s` begins with `prefix`.
pub open spec fn begins_with(s: Seq<char>, prefix: Seq<char>) -> bool {
    prefix.len() <= s.len() && s.take(prefix.len() as int) == prefix
}

/// `s` with every occurrence of `from`, found from left to right, replaced by `to`.
pub open spec fn replaced(s: Seq<char>, from: Seq<char>, to: Seq<char>) -> Seq<char>
    decreases s.len(),
{
    if from.len() == 0 || s.len() == 0 {
        s
    } else if begins_with(s, from) {
        to + replaced(s.skip(from.len() as int), from, to)
    } else {
        seq![s[0]] + replaced(s.drop_first(), from, to)
    }
}

fn starts_at(chars: &[char], at: usize, prefix: &[char]) -> (starts: bool)
    requires
        at <= chars@.len(),
    ensures
        starts == begins_with(chars@.skip(at as int), prefix@),
{
    let total: usize = chars.len();
    if total - at < prefix.len() {
        return false;
    }
    let mut i: usize = 0;
    while i < prefix.len()
        invariant
            total == chars@.len(),
            at <= total,
            prefix@.len() <= chars@.len() - at,
            i <= prefix@.len(),
            forall|j: int| 0 <= j < i ==> chars@[at + j] == prefix@[j],
        decreases prefix@.len() - i,
    {
        if chars[at + i] != prefix[i] {
            assert(chars@.skip(at as int).take(prefix@.len() as int)[i as int] != prefix@[i as int]);
            return false;
        }
        i += 1;
    }
    assert(chars@.skip(at as int).take(prefix@.len() as int) =~= prefix@);
    true
}

/// Replaces every occurrence of `from` by `to`.
pub fn replace(text: &str, from: &str, to: &str) -> (result: String)
    requires
        from@.len() > 0,
    ensures
        result@ == replaced(text@, from@, to@),
{
    let chars = chars_of(text);
    let pattern = chars_of(from);
    let mut result = String::new();
    let mut i: usize = 0;
    proof {
        assert(chars@.skip(0) =~= chars@);
        assert(result@ + replaced(text@, from@, to@) =~= replaced(text@, from@, to@));
    }
    while i < chars.len()
        invariant
            chars@ == text@,
            pattern@ == from@,
            from@.len() > 0,
            i <= chars@.len(),
            result@ + replaced(chars@.skip(i as int), from@, to@) == replaced(text@, from@, to@),
        decreases chars@.len() - i,
    {
        let ghost rest = chars@.skip(i as int);
        let ghost before = result@;
        if starts_at(chars.as_slice(), i, pattern.as_slice()) {
            result.append(to);
            proof {
                assert(rest.skip(from@.len() as int) =~= chars@.skip(i + from@.len()));
                assert(before + (to@ + replaced(chars@.skip(i + from@.len()), from@, to@))
                    =~= result@ + replaced(chars@.skip(i + from@.len()), from@, to@));
            }
            i += pattern.len();
        } else {
            result.push(chars[i]);
            proof {
                assert(rest.drop_first() =~= chars@.skip(i + 1));
                assert(before + (seq![rest[0]] + replaced(chars@.skip(i + 1), from@, to@))
                    =~= result@ + replaced(chars@.skip(i + 1), from@, to@));
            }
            i += 1;
        }
    }
    assert(result@ + replaced(chars@.skip(i as int), from@, to@) =~= result@);
    result
}

// ---------------------------------------------------------------------------------------------
// Numbers
// ---------------------------------------------------------------------------------------------

/// The character of a decimal digit.
pub open spec fn digit_char(d: int) -> char {
    (48 + d) as u8 as char
}

/// The character of a hexadecimal digit.
pub open spec fn hex_char(digit: int) -> char {
    if digit < 10 {
        (48 + digit) as u8 as char
    } else {
        (87 + digit) as u8 as char
    }
}

/// A natural number in decimal, without leading zeros.
pub open spec fn decimal(n: nat) -> Seq<char>
    decreases n,
{
    if n < 10 {
        seq![digit_char(n as int)]
    } else {
        decimal(n / 10).push(digit_char((n % 10) as int))
    }
}

/// An integer in decimal, with a minus sign where it is negative.
pub open spec fn signed_decimal(n: int) -> Seq<char> {
    if n < 0 {
        seq!['-'] + decimal((-n) as nat)
    } else {
        decimal(n as nat)
    }
}

/// A natural number in decimal, with at least two digits.
pub open spec fn two_digits(n: nat) -> Seq<char> {
    if n < 10 {
        seq!['0'] + decimal(n)
    } else {
        decimal(n)
    }
}

/// Appends a number in decimal.
pub fn push_decimal(out: &mut String, n: u64)
    ensures
        final(out)@ == old(out)@ + decimal(n as nat),
    decreases n,
{
    if n >= 10 {
        push_decimal(out, n / 10);
    }
    out.push((48 + (n % 10) as u8) as char);
    assert(out@ =~= old(out)@ + decimal(n as nat));
}

/// Appends an integer in decimal.
pub fn push_signed(out: &mut String, n: i64)
    ensures
        final(out)@ == old(out)@ + signed_decimal(n as int),
{
    if n < 0 {
        out.push('-');
        let magnitude: u64 = (-(n as i128)) as u64;
        push_decimal(out, magnitude);
        assert(out@ =~= old(out)@ + signed_decimal(n as int));
    } else {
        push_decimal(out, n as u64);
    }
}

/// Appends a number in decimal with at least two digits.
pub fn push_two_digits(out: &mut String, n: u64)
    ensures
        final(out)@ == old(out)@ + two_digits(n as nat),
{
    if n < 10 {
        out.push('0');
    }
    push_decimal(out, n);
    assert(out@ =~= old(out)@ + two_digits(n as nat));
}

/// Whether every character is a decimal digit.
pub open spec fn all_digits(s: Seq<char>) -> bool {
    forall|i: int| 0 <= i < s.len() ==> '0' <= #[trigger] s[i] <= '9'
}

/// The number that a sequence of decimal digits denotes.
pub open spec fn digits_value(s: Seq<char>) -> nat
    decreases s.len(),
{
    if s.len() == 0 {
        0
    } else {
        digits_value(s.drop_last()) * 10 + (s.last() as nat - 48) as nat
    }
}

/// The 64-bit number that a text denotes: digits, after one plus sign or none.
pub open spec fn parsed_u64(s: Seq<char>) -> Option<u64> {
    let digits = if s.len() > 0 && s[0] == '+' {
        s.drop_first()
    } else {
        s
    };
    if digits.len() > 0 && all_digits(digits) && digits_value(digits) <= u64::MAX {
        Some(digits_value(digits) as u64)
    } else {
        None
    }
}

proof fn lemma_digits_value_grows(s: Seq<char>, k: int)
    requires
        0 <= k <= s.len(),
    ensures
        digits_value(s.take(k)) <= digits_value(s),
    decreases s.len() - k,
{
    if k < s.len() {
        lemma_digits_value_grows(s, k + 1);
        assert(s.take(k + 1).drop_last() =~= s.take(k));
    } else {
        assert(s.take(k) =~= s);
    }
}

/// Reads an unsigned number.
pub fn parse_u64(chars: &[char]) -> (number: Option<u64>)
    ensures
        number == parsed_u64(chars@),
{
    let start: usize = if chars.len() > 0 && chars[0] == '+' {
        1
    } else {
        0
    };
    let ghost digits = if start == 1 {
        chars@.drop_first()
    } else {
        chars@
    };
    if start == chars.len() {
        return None;
    }
    let mut value: u64 = 0;
    let mut i: usize = start;
    while i < chars.len()
        invariant
            start <= 1,
            start <= i <= chars@.len(),
            digits == chars@.skip(start as int),
            forall|j: int| 0 <= j < i - start ==> '0' <= #[trigger] digits[j] <= '9',
            value == digits_value(digits.take(i - start)),
            digits.len() > 0,
            parsed_u64(chars@) == if all_digits(digits) && digits_value(digits) <= u64::MAX {
                Some(digits_value(digits) as u64)
            } else {
                None
            },
        decreases chars@.len() - i,
    {
        let c = chars[i];
        assert(c == digits[i - start]);
        if c < '0' || c > '9' {
            return None;
        }
        let digit: u64 = (c as u8 - 48) as u64;
        proof {
            assert(digits.take(i - start + 1).drop_last() =~= digits.take(i - start));
            assert(digits.take(i - start + 1).last() == c);
            lemma_digits_value_grows(digits, i - start + 1);
        }
        if value > (u64::MAX - digit) / 10 {
            assert(digits_value(digits) > u64::MAX);
            return None;
        }
        value = value * 10 + digit;
        i += 1;
    }
    assert(digits.take(i - start) =~= digits);
    Some(value)
}

// ---------------------------------------------------------------------------------------------
// Laws
// ---------------------------------------------------------------------------------------------

proof fn lemma_position_bounds(s: Seq<char>, c: char)
    ensures
        0 <= position(s, c) <= s.len(),
        position(s, c) < s.len() ==> s[position(s, c)] == c,
        forall|j: int| 0 <= j < position(s, c) ==> s[j] != c,
    decreases s.len(),
{
    if s.len() > 0 && s[0] != c {
        let rest = s.drop_first();
        lemma_position_bounds(rest, c);
        if position(rest, c) < rest.len() {
            assert(rest[position(rest, c)] == s[position(rest, c) + 1]);
        }
        assert forall|j: int| 0 <= j < position(s, c) implies s[j] != c by {
            if j > 0 {
                assert(s[j] == rest[j - 1]);
            }
        }
    }
}

/// A text is split at its first separator: what stands before it has none, and the parts with the
/// separator between them are the text. A text that is not split has none.
pub proof fn law_halves(s: Seq<char>, sep: char)
    ensures
        match halves(s, sep) {
            Some((before, after)) => s == before.push(sep) + after && !before.contains(sep),
            None => !s.contains(sep),
        },
{
    lemma_position_bounds(s, sep);
    let at = position(s, sep);
    if at < s.len() {
        assert(s =~= s.take(at).push(sep) + s.skip(at + 1));
        if s.take(at).contains(sep) {
            let j = s.take(at).index_of(sep);
            assert(s[j] == sep);
        }
    }
}

/// Texts with a separator between each two of them.
pub open spec fn joined_by(parts: Seq<Seq<char>>, sep: char) -> Seq<char>
    decreases parts.len(),
{
    if parts.len() == 0 {
        seq![]
    } else if parts.len() == 1 {
        parts[0]
    } else {
        parts[0].push(sep) + joined_by(parts.drop_first(), sep)
    }
}

/// Splitting at every separator loses nothing: there is at least one piece, none holds a separator,
/// and with separators between them the pieces are the text.
pub proof fn law_pieces(s: Seq<char>, sep: char)
    ensures
        pieces(s, sep).len() > 0,
        forall|i: int| 0 <= i < pieces(s, sep).len() ==> !(#[trigger] pieces(s, sep)[i]).contains(sep),
        joined_by(pieces(s, sep), sep) == s,
    decreases s.len(),
{
    lemma_position_bounds(s, sep);
    let at = position(s, sep);
    let all = pieces(s, sep);
    if at < s.len() {
        let rest = pieces(s.skip(at + 1), sep);
        law_pieces(s.skip(at + 1), sep);
        assert(all =~= seq![s.take(at)] + rest);
        assert(all.drop_first() =~= rest);
        assert(joined_by(all, sep) =~= s.take(at).push(sep) + joined_by(rest, sep));
        assert(s =~= s.take(at).push(sep) + s.skip(at + 1));
        assert forall|i: int| 0 <= i < all.len() implies !(#[trigger] all[i]).contains(sep) by {
            if i == 0 {
                if s.take(at).contains(sep) {
                    let j = s.take(at).index_of(sep);
                    assert(s[j] == sep);
                }
            } else {
                assert(all[i] == rest[i - 1]);
            }
        }
    }
}

/// The pieces of two texts with a separator between them are those of the one and then those of the
/// other.
pub proof fn law_pieces_of_two(a: Seq<char>, b: Seq<char>, sep: char)
    ensures
        pieces(a.push(sep) + b, sep) == pieces(a, sep) + pieces(b, sep),
    decreases a.len(),
{
    lemma_position_bounds(a, sep);
    let s = a.push(sep) + b;
    let at = position(a, sep);
    assert forall|j: int| 0 <= j < at implies s[j] != sep by {
        assert(s[j] == a[j]);
    }
    assert(s[at] == sep) by {
        if at < a.len() {
            assert(s[at] == a[at]);
        }
    }
    lemma_position(s, sep, at);
    assert(s.take(at) =~= a.take(at));
    if at < a.len() {
        let rest = a.skip(at + 1);
        law_pieces_of_two(rest, b, sep);
        assert(s.skip(at + 1) =~= rest.push(sep) + b);
        assert(pieces(s, sep) =~= pieces(a, sep) + pieces(b, sep));
    } else {
        assert(s.skip(at + 1) =~= b);
        assert(a.take(at) =~= a);
        assert(pieces(s, sep) =~= pieces(a, sep) + pieces(b, sep));
    }
}

/// Stripping removes the dropped characters at both ends and nothing else: what is left is a part of
/// the text that neither begins nor ends with one, and all around it is dropped.
pub proof fn law_stripped(s: Seq<char>, kind: Strip) -> (start: int)
    ensures
        ({
            let rest = stripped(s, kind);
            let end = start + rest.len();
            &&& 0 <= start <= end <= s.len()
            &&& rest == s.subrange(start, end)
            &&& forall|i: int| 0 <= i < start ==> kind.drops(#[trigger] s[i])
            &&& forall|i: int| end <= i < s.len() ==> kind.drops(#[trigger] s[i])
            &&& rest.len() > 0 ==> !kind.drops(rest[0]) && !kind.drops(rest.last())
        }),
{
    let start = lemma_strip_front(s, kind);
    let front = strip_front(s, kind);
    lemma_strip_back(front, kind);
    let rest = stripped(s, kind);
    assert(rest =~= s.subrange(start, start + rest.len()));
    assert forall|i: int| start + rest.len() <= i < s.len() implies kind.drops(#[trigger] s[i]) by {
        assert(front[i - start] == s[i]);
    }
    if rest.len() > 0 {
        assert(rest[0] == front[0]);
    }
    start
}

proof fn lemma_strip_front(s: Seq<char>, kind: Strip) -> (start: int)
    ensures
        0 <= start <= s.len(),
        strip_front(s, kind) == s.skip(start),
        forall|i: int| 0 <= i < start ==> kind.drops(#[trigger] s[i]),
        start < s.len() ==> !kind.drops(s[start]),
    decreases s.len(),
{
    if s.len() > 0 && kind.drops(s[0]) {
        let rest = s.drop_first();
        let at = lemma_strip_front(rest, kind);
        assert(rest.skip(at) =~= s.skip(at + 1));
        assert forall|i: int| 0 <= i < at + 1 implies kind.drops(#[trigger] s[i]) by {
            if i > 0 {
                assert(rest[i - 1] == s[i]);
            }
        }
        if at < rest.len() {
            assert(rest[at] == s[at + 1]);
        }
        at + 1
    } else {
        assert(s.skip(0) =~= s);
        0
    }
}

proof fn lemma_strip_back(s: Seq<char>, kind: Strip)
    ensures
        strip_back(s, kind).len() <= s.len(),
        strip_back(s, kind) == s.take(strip_back(s, kind).len() as int),
        forall|i: int| strip_back(s, kind).len() <= i < s.len() ==> kind.drops(#[trigger] s[i]),
        strip_back(s, kind).len() > 0 ==> !kind.drops(strip_back(s, kind).last()),
    decreases s.len(),
{
    if s.len() > 0 && kind.drops(s.last()) {
        let rest = s.drop_last();
        lemma_strip_back(rest, kind);
        let kept = strip_back(rest, kind);
        assert(s.take(kept.len() as int) =~= rest.take(kept.len() as int));
        assert forall|i: int| kept.len() <= i < s.len() implies kind.drops(#[trigger] s[i]) by {
            if i < rest.len() {
                assert(rest[i] == s[i]);
            }
        }
    } else {
        assert(s.take(s.len() as int) =~= s);
    }
}

/// Words are separated by white space: the words of two texts with white space between them are
/// those of the one and then those of the other, and a text without white space is one word.
pub proof fn law_words(a: Seq<char>, white: char, b: Seq<char>)
    requires
        is_white(white),
    ensures
        words(a.push(white) + b) == words(a) + words(b),
        words(Seq::empty()) == Seq::<Seq<char>>::empty(),
        a.len() > 0 && (forall|i: int| 0 <= i < a.len() ==> !is_white(#[trigger] a[i])) ==> words(a)
            == seq![a],
    decreases a.len(),
{
    let s = a.push(white) + b;
    if a.len() > 0 && (forall|i: int| 0 <= i < a.len() ==> !is_white(#[trigger] a[i])) {
        lemma_word_len(a, a.len() as int);
        assert(a.take(a.len() as int) =~= a);
        assert(a.skip(a.len() as int) =~= seq![]);
        assert(!is_white(a[0]));
        assert(words(a) == seq![a] + words(Seq::empty()));
        assert(words(a) =~= seq![a]);
    }
    if a.len() == 0 {
        assert(s[0] == white);
        assert(s.drop_first() =~= b);
        assert(words(a) + words(b) =~= words(b));
    } else if is_white(a[0]) {
        assert(s[0] == a[0]);
        assert(s.drop_first() =~= a.drop_first().push(white) + b);
        law_words(a.drop_first(), white, b);
    } else {
        let k = lemma_word_end(a);
        lemma_word_len(a, k);
        assert(s[0] == a[0]);
        assert forall|j: int| 0 <= j < k implies !is_white(#[trigger] s[j]) by {
            assert(s[j] == a[j]);
        }
        if k < a.len() {
            assert(s[k] == a[k]);
        }
        lemma_word_len(s, k);
        assert(s.take(k) =~= a.take(k));
        assert(s.skip(k) =~= a.skip(k).push(white) + b);
        law_words(a.skip(k), white, b);
        assert(words(s) =~= seq![a.take(k)] + (words(a.skip(k)) + words(b)));
        assert(words(s) =~= words(a) + words(b));
    }
}

proof fn lemma_word_end(s: Seq<char>) -> (k: int)
    requires
        s.len() > 0,
        !is_white(s[0]),
    ensures
        0 < k <= s.len(),
        forall|j: int| 0 <= j < k ==> !is_white(#[trigger] s[j]),
        k < s.len() ==> is_white(s[k]),
    decreases s.len(),
{
    if s.len() == 1 || is_white(s[1]) {
        1
    } else {
        let rest = s.drop_first();
        let k = lemma_word_end(rest);
        assert forall|j: int| 0 <= j < k + 1 implies !is_white(#[trigger] s[j]) by {
            if j > 0 {
                assert(rest[j - 1] == s[j]);
            }
        }
        if k < rest.len() {
            assert(rest[k] == s[k + 1]);
        }
        k + 1
    }
}

/// A line feed ends a line, together with a carriage return before it; what comes after it are the
/// other lines. The last line needs none.
pub proof fn law_lines(a: Seq<char>, b: Seq<char>)
    requires
        !a.contains('\n'),
    ensures
        a.len() == 0 || a.last() != '\r' ==> lines(a.push('\n') + b) == seq![a] + lines(b),
        lines(a.push('\r').push('\n') + b) == seq![a] + lines(b),
        a.len() > 0 ==> lines(a) == seq![a],
        lines(Seq::empty()) == Seq::<Seq<char>>::empty(),
{
    assert forall|j: int| 0 <= j < a.len() implies a[j] != '\n' by {
        assert(a.contains(a[j]));
    }
    lemma_position(a, '\n', a.len() as int);
    let s = a.push('\n') + b;
    assert(s[a.len() as int] == '\n');
    assert forall|j: int| 0 <= j < a.len() implies s[j] != '\n' by {
        assert(s[j] == a[j]);
    }
    lemma_position(s, '\n', a.len() as int);
    assert(s.take(a.len() as int) =~= a);
    assert(s.skip(a.len() as int + 1) =~= b);
    let t = a.push('\r').push('\n') + b;
    let k = a.len() as int + 1;
    assert(t[k] == '\n');
    assert forall|j: int| 0 <= j < k implies t[j] != '\n' by {
        if j < a.len() {
            assert(t[j] == a[j]);
        }
    }
    lemma_position(t, '\n', k);
    assert(t.take(k) =~= a.push('\r'));
    assert(t.take(k).drop_last() =~= a);
    assert(t.skip(k + 1) =~= b);
}

/// Lower case changes the letters from A to Z alone, each to the letter 32 places on.
pub proof fn law_lowered(s: Seq<char>, i: int)
    requires
        0 <= i < s.len(),
    ensures
        lowered(s).len() == s.len(),
        'A' <= s[i] <= 'Z' ==> lowered(s)[i] as int == s[i] as int + 32,
        !('A' <= s[i] <= 'Z') ==> lowered(s)[i] == s[i],
        lowered(lowered(s)) == lowered(s),
{
    assert forall|j: int| 0 <= j < s.len() implies ascii_lower(ascii_lower(s[j])) == ascii_lower(
        s[j],
    ) by {}
    assert(lowered(lowered(s)) =~= lowered(s));
}

/// Whether `part` occurs in `s` at a place.
pub open spec fn occurs_at(s: Seq<char>, part: Seq<char>, at: int) -> bool {
    0 <= at && at + part.len() <= s.len() && s.subrange(at, at + part.len()) == part
}

/// Replacing changes nothing where the text does not occur.
pub proof fn law_nothing_is_replaced(s: Seq<char>, from: Seq<char>, to: Seq<char>)
    requires
        from.len() > 0,
        forall|k: int| !#[trigger] occurs_at(s, from, k),
    ensures
        replaced(s, from, to) == s,
    decreases s.len(),
{
    if s.len() > 0 {
        let rest = s.drop_first();
        assert(!begins_with(s, from)) by {
            assert(!occurs_at(s, from, 0));
            if begins_with(s, from) {
                assert(s.subrange(0, from.len() as int) =~= s.take(from.len() as int));
            }
        }
        assert forall|k: int| !#[trigger] occurs_at(rest, from, k) by {
            assert(!occurs_at(s, from, k + 1));
            if occurs_at(rest, from, k) {
                assert(s.subrange(k + 1, k + 1 + from.len()) =~= rest.subrange(k, k + from.len()));
            }
        }
        law_nothing_is_replaced(rest, from, to);
        assert(seq![s[0]] + rest =~= s);
    }
}

/// Replacing replaces the first occurrence of the text, and goes on behind it.
pub proof fn law_first_occurrence_is_replaced(
    a: Seq<char>,
    from: Seq<char>,
    to: Seq<char>,
    b: Seq<char>,
)
    requires
        from.len() > 0,
        forall|k: int| 0 <= k < a.len() ==> !#[trigger] occurs_at(a + from + b, from, k),
    ensures
        replaced(a + from + b, from, to) == a + to + replaced(b, from, to),
    decreases a.len(),
{
    let s = a + from + b;
    let tail = to + replaced(b, from, to);
    if a.len() == 0 {
        assert(s.take(from.len() as int) =~= from);
        assert(s.skip(from.len() as int) =~= b);
        assert(a + to + replaced(b, from, to) =~= tail);
    } else {
        let rest = a.drop_first();
        let less = rest + from + b;
        assert(s.drop_first() =~= less);
        assert(!begins_with(s, from)) by {
            assert(!occurs_at(s, from, 0));
            if begins_with(s, from) {
                assert(s.subrange(0, from.len() as int) =~= s.take(from.len() as int));
            }
        }
        assert forall|k: int| 0 <= k < rest.len() implies !#[trigger] occurs_at(less, from, k) by {
            assert(!occurs_at(s, from, k + 1));
            if occurs_at(less, from, k) {
                assert(s.subrange(k + 1, k + 1 + from.len()) =~= less.subrange(k, k + from.len()));
            }
        }
        law_first_occurrence_is_replaced(rest, from, to, b);
        assert(s[0] == a[0]);
        assert(seq![a[0]] + (rest + to + replaced(b, from, to)) =~= a + to + replaced(b, from, to));
    }
}

proof fn lemma_decimal_value(n: nat)
    ensures
        decimal(n).len() > 0,
        all_digits(decimal(n)),
        digits_value(decimal(n)) == n,
        n > 0 ==> decimal(n)[0] != '0',
    decreases n,
{
    let digit = digit_char((n % 10) as int);
    assert('0' <= digit <= '9' && digit as nat - 48 == n % 10);
    if n < 10 {
        assert(decimal(n).drop_last() =~= seq![]);
        assert(digits_value(decimal(n).drop_last()) == 0);
        assert(decimal(n).last() == digit);
    } else {
        lemma_decimal_value(n / 10);
        assert(decimal(n).drop_last() =~= decimal(n / 10));
        assert(decimal(n).last() == digit);
    }
}

proof fn lemma_zero_before(s: Seq<char>)
    ensures
        digits_value(seq!['0'] + s) == digits_value(s),
    decreases s.len(),
{
    let t = seq!['0'] + s;
    if s.len() == 0 {
        assert(t.drop_last() =~= seq![]);
        assert(digits_value(t.drop_last()) == 0);
        assert(t.last() == '0');
    } else {
        lemma_zero_before(s.drop_last());
        assert(t.drop_last() =~= seq!['0'] + s.drop_last());
        assert(t.last() == s.last());
    }
}

/// A number is read back from its text, also behind a plus sign or a zero; the text has no zero in
/// front of it. Below zero the text has a minus sign, and with two digits at least it has as many
/// places as that.
pub proof fn law_numbers_are_read_back(n: u64)
    ensures
        parsed_u64(decimal(n as nat)) == Some(n),
        parsed_u64(seq!['+'] + decimal(n as nat)) == Some(n),
        parsed_u64(seq!['0'] + decimal(n as nat)) == Some(n),
        n > 0 ==> decimal(n as nat)[0] != '0',
        two_digits(n as nat).len() >= 2,
        parsed_u64(two_digits(n as nat)) == Some(n),
        n >= 10 ==> two_digits(n as nat) == decimal(n as nat),
        signed_decimal(n as int) == decimal(n as nat),
        n > 0 ==> signed_decimal(-(n as int)) == seq!['-'] + decimal(n as nat),
{
    let text = decimal(n as nat);
    lemma_decimal_value(n as nat);
    assert('0' <= text[0] <= '9');
    let plus = seq!['+'] + text;
    assert(plus.drop_first() =~= text);
    let zero = seq!['0'] + text;
    lemma_zero_before(text);
    assert(zero[0] == '0');
    assert forall|i: int| 0 <= i < zero.len() implies '0' <= #[trigger] zero[i] <= '9' by {
        if i > 0 {
            assert(zero[i] == text[i - 1]);
        }
    }
    if n >= 10 {
        lemma_decimal_value((n / 10) as nat);
    }
}

/// Only digits are read, behind one plus sign or none, at least one of them, and every number of
/// them that fits; one more digit is worth ten times as much as what stands before it.
pub proof fn law_only_digits_are_numbers(s: Seq<char>, digit: char)
    requires
        s.len() > 0,
        s[0] != '+',
    ensures
        parsed_u64(s) is Some ==> forall|i: int|
            0 <= i < s.len() ==> '0' <= #[trigger] s[i] <= '9',
        parsed_u64(seq!['+'] + s) == parsed_u64(s),
        parsed_u64(Seq::empty()) is None,
        parsed_u64(seq!['+']) is None,
        '0' <= digit <= '9' && parsed_u64(s) is Some ==> {
            let next = 10 * parsed_u64(s)->0 + (digit as int - 48);
            &&& next <= u64::MAX ==> parsed_u64(s.push(digit)) == Some(next as u64)
            &&& next > u64::MAX ==> parsed_u64(s.push(digit)) is None
        },
{
    assert((seq!['+'] + s).drop_first() =~= s);
    assert(seq!['+'].drop_first() =~= seq![]);
    assert(s.push(digit).drop_last() =~= s);
    assert(s.push(digit)[0] == s[0]);
    if parsed_u64(s) is Some && '0' <= digit <= '9' {
        assert forall|i: int| 0 <= i < s.push(digit).len() implies '0' <= #[trigger] s.push(
            digit,
        )[i] <= '9' by {
            if i < s.len() {
                assert(s.push(digit)[i] == s[i]);
            }
        }
    }
}

/// Of two sequences of bytes, the first place where they differ decides which comes first, and one
/// that goes on comes after one that has ended there.
pub proof fn law_first_difference_decides(
    common: Seq<u8>,
    x: u8,
    y: u8,
    a: Seq<u8>,
    b: Seq<u8>,
)
    requires
        x < y,
    ensures
        lex_less(common.push(x) + a, common.push(y) + b),
        !lex_less(common.push(y) + b, common.push(x) + a),
        lex_less(common, common.push(x) + a),
        !lex_less(common.push(x) + a, common),
    decreases common.len(),
{
    if common.len() > 0 {
        let rest = common.drop_first();
        law_first_difference_decides(rest, x, y, a, b);
        assert((common.push(x) + a).drop_first() =~= rest.push(x) + a);
        assert((common.push(y) + b).drop_first() =~= rest.push(y) + b);
    }
}

/// White space around a text is trimmed, and what stands inside it is not.
pub proof fn law_padding_is_trimmed(before: Seq<char>, body: Seq<char>, after: Seq<char>)
    requires
        forall|i: int| 0 <= i < before.len() ==> is_white(#[trigger] before[i]),
        forall|i: int| 0 <= i < after.len() ==> is_white(#[trigger] after[i]),
        body.len() > 0 ==> !is_white(body[0]) && !is_white(body.last()),
    ensures
        trimmed(before + body + after) == body,
    decreases before.len() + after.len(),
{
    let s = before + body + after;
    if before.len() > 0 {
        let rest = before.drop_first();
        assert forall|i: int| 0 <= i < rest.len() implies is_white(#[trigger] rest[i]) by {
            assert(rest[i] == before[i + 1]);
        }
        law_padding_is_trimmed(rest, body, after);
        assert(s[0] == before[0]);
        assert(s.drop_first() =~= rest + body + after);
    } else if after.len() > 0 {
        if body.len() == 0 {
            let rest = after.drop_first();
            assert forall|i: int| 0 <= i < rest.len() implies is_white(#[trigger] rest[i]) by {
                assert(rest[i] == after[i + 1]);
            }
            law_padding_is_trimmed(before, body, rest);
            assert(s[0] == after[0]);
            assert(s.drop_first() =~= before + body + rest);
        } else {
            let rest = after.drop_last();
            assert forall|i: int| 0 <= i < rest.len() implies is_white(#[trigger] rest[i]) by {
                assert(rest[i] == after[i]);
            }
            law_padding_is_trimmed(before, body, rest);
            let shorter = before + body + rest;
            assert(s[0] == body[0] && shorter[0] == body[0]);
            assert(s.last() == after[after.len() - 1]);
            assert(s.drop_last() =~= shorter);
            assert(strip_front(s, Strip::White) == s);
            assert(strip_front(shorter, Strip::White) == shorter);
        }
    } else {
        assert(s =~= body);
    }
}

/// The texts of some strings and of some characters are theirs, one by one.
pub proof fn law_texts(strings: Seq<String>, parts: Seq<Vec<char>>)
    ensures
        texts(strings).len() == strings.len(),
        forall|i: int| 0 <= i < strings.len() ==> #[trigger] texts(strings)[i] == strings[i]@,
        views(parts).len() == parts.len(),
        forall|i: int| 0 <= i < parts.len() ==> #[trigger] views(parts)[i] == parts[i]@,
{
}

/// A string that may be missing is read as it is.
pub proof fn law_optional_texts(text: String)
    ensures
        optional_text(Some(text)) == Some(text@),
        optional_text(None) is None,
{
}

} // verus!
