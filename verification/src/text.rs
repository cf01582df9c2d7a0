//! Small tools for reading free-form text: splitting at a separator,
//! finding a word whatever its case, and dropping a character.

use vstd::prelude::*;

verus! {

/// `String::push` of the standard library appends one character.
pub assume_specification[ String::push ](text: &mut String, c: char)
    ensures
        final(text)@ == old(text)@.push(c),
;

/// Builds a text from its characters.
pub fn text_of(chars: &Vec<char>) -> (out: String)
    ensures
        out@ == chars@,
{
    let mut out = String::new();
    let mut i: usize = 0;
    while i < chars.len()
        invariant
            i <= chars.len(),
            out@ == chars@.take(i as int),
        decreases chars.len() - i,
    {
        out.push(chars[i]);
        proof {
            assert(chars@.take(i as int).push(chars[i as int]) =~= chars@.take(i + 1));
        }
        i += 1;
    }
    proof {
        assert(chars@.take(chars.len() as int) =~= chars@);
    }
    out
}

/// The small form of one of the 26 capital letters; any other character
/// stays as it is.
pub open spec fn small(c: char) -> char {
    if 'A' <= c <= 'Z' {
        ((c as u8) + 32) as char
    } else {
        c
    }
}

/// The small form of a capital letter.
pub fn to_small(c: char) -> (out: char)
    ensures
        out == small(c),
{
    if 'A' <= c && c <= 'Z' {
        ((c as u8) + 32) as char
    } else {
        c
    }
}

/// `word` stands in `text` at place `at`, capital letters of `text` counting
/// as small ones.
pub open spec fn stands_at(text: Seq<char>, word: Seq<char>, at: int) -> bool {
    &&& 0 <= at
    &&& at + word.len() <= text.len()
    &&& forall|k: int| 0 <= k < word.len() ==> small(#[trigger] text[at + k]) == word[k]
}

/// The text is the word, capital letters of the text counting as small ones.
pub open spec fn reads_as(text: Seq<char>, word: Seq<char>) -> bool {
    text.len() == word.len() && stands_at(text, word, 0)
}

/// `word` stands somewhere in `text`, whatever the case of `text`.
pub open spec fn holds_word(text: Seq<char>, word: Seq<char>) -> bool {
    exists|at: int| stands_at(text, word, at)
}

/// `at` is the first place of `text` at which `word` stands.
pub open spec fn is_first_place(text: Seq<char>, word: Seq<char>, at: int) -> bool {
    stands_at(text, word, at) && forall|b: int| 0 <= b < at ==> !stands_at(text, word, b)
}

/// The first place of `text` at which `word` stands.
pub open spec fn first_place(text: Seq<char>, word: Seq<char>) -> int {
    choose|at: int| is_first_place(text, word, at)
}

/// `at` is the first place of `text` at which the character stands.
pub open spec fn is_first_char(text: Seq<char>, c: char, at: int) -> bool {
    0 <= at < text.len() && text[at] == c && forall|b: int| 0 <= b < at ==> text[b] != c
}

/// The first place of `text` at which the character stands.
pub open spec fn first_char(text: Seq<char>, c: char) -> int {
    choose|at: int| is_first_char(text, c, at)
}

/// Tells whether `word` stands in `text` at place `at`.
pub fn word_at(text: &Vec<char>, word: &Vec<char>, at: usize) -> (b: bool)
    ensures
        b == stands_at(text@, word@, at as int),
{
    if at > text.len() || word.len() > text.len() - at {
        return false;
    }
    let mut k: usize = 0;
    while k < word.len()
        invariant
            k <= word.len(),
            at + word.len() <= text.len(),
            forall|m: int| 0 <= m < k ==> small(#[trigger] text@[at + m]) == word@[m],
        decreases word.len() - k,
    {
        if to_small(text[at + k]) != word[k] {
            return false;
        }
        k += 1;
    }
    true
}

/// Tells whether the text is the word, whatever the case of the text.
pub fn is_word(text: &Vec<char>, word: &Vec<char>) -> (b: bool)
    ensures
        b == reads_as(text@, word@),
{
    text.len() == word.len() && word_at(text, word, 0)
}

/// Finds the first place of `text` at which `word` stands.
pub fn find_word(text: &Vec<char>, word: &Vec<char>) -> (out: Option<usize>)
    ensures
        out is Some <==> holds_word(text@, word@),
        out matches Some(at) ==> at == first_place(text@, word@) && is_first_place(
            text@,
            word@,
            at as int,
        ),
{
    let mut at: usize = 0;
    while at < text.len()
        invariant
            at <= text.len(),
            forall|b: int| 0 <= b < at ==> !stands_at(text@, word@, b),
        decreases text.len() - at,
    {
        if word_at(text, word, at) {
            proof {
                lemma_first_place(text@, word@, at as int);
            }
            return Some(at);
        }
        at += 1;
    }
    if word_at(text, word, at) {
        proof {
            lemma_first_place(text@, word@, at as int);
        }
        return Some(at);
    }
    proof {
        assert forall|b: int| !stands_at(text@, word@, b) by {
            if 0 <= b && b + word@.len() <= text@.len() {
                assert(b <= at);
            }
        }
    }
    None
}

/// The first place at which the character stands, if there is one.
pub fn find_char(text: &Vec<char>, c: char) -> (out: Option<usize>)
    ensures
        out is Some <==> text@.contains(c),
        out matches Some(at) ==> at == first_char(text@, c) && is_first_char(text@, c, at as int),
{
    let mut at: usize = 0;
    while at < text.len()
        invariant
            at <= text.len(),
            forall|b: int| 0 <= b < at ==> text@[b] != c,
        decreases text.len() - at,
    {
        if text[at] == c {
            proof {
                lemma_first_char(text@, c, at as int);
            }
            return Some(at);
        }
        at += 1;
    }
    None
}

/// Only one place is the first at which a word stands.
pub proof fn lemma_first_place(text: Seq<char>, word: Seq<char>, at: int)
    requires
        is_first_place(text, word, at),
    ensures
        first_place(text, word) == at,
        holds_word(text, word),
{
    let chosen = first_place(text, word);
    assert(is_first_place(text, word, chosen));
    if chosen < at {
        assert(!stands_at(text, word, chosen));
    } else if at < chosen {
        assert(!stands_at(text, word, at));
    }
}

/// Only one place is the first at which a character stands.
pub proof fn lemma_first_char(text: Seq<char>, c: char, at: int)
    requires
        is_first_char(text, c, at),
    ensures
        first_char(text, c) == at,
        text.contains(c),
{
    let chosen = first_char(text, c);
    assert(is_first_char(text, c, chosen));
    if chosen < at {
        assert(text[chosen] != c);
    } else if at < chosen {
        assert(text[at] != c);
    }
}

/// Tells whether two texts are the same.
pub fn same_chars(a: &Vec<char>, b: &Vec<char>) -> (same: bool)
    ensures
        same == (a@ == b@),
{
    if a.len() != b.len() {
        return false;
    }
    let mut i: usize = 0;
    while i < a.len()
        invariant
            i <= a.len(),
            a.len() == b.len(),
            forall|k: int| 0 <= k < i ==> a@[k] == b@[k],
        decreases a.len() - i,
    {
        if a[i] != b[i] {
            return false;
        }
        i += 1;
    }
    proof {
        assert(a@ =~= b@);
    }
    true
}

/// The pieces of a text between occurrences of a separator. A text without
/// the separator is one piece; two separators in a row, or a separator at
/// either end, give an empty piece.
pub open spec fn split_on(text: Seq<char>, separator: char) -> Seq<Seq<char>>
    decreases text.len(),
{
    if text.len() == 0 {
        seq![Seq::<char>::empty()]
    } else {
        let earlier = split_on(text.drop_last(), separator);
        if text.last() == separator {
            earlier.push(Seq::<char>::empty())
        } else {
            earlier.drop_last().push(earlier.last().push(text.last()))
        }
    }
}

/// The character sequences behind a sequence of vectors.
pub open spec fn pieces(list: Seq<Vec<char>>) -> Seq<Seq<char>> {
    list.map_values(|piece: Vec<char>| piece@)
}

/// Splits a text at every occurrence of the separator.
pub fn split_chars(text: &Vec<char>, separator: char) -> (out: Vec<Vec<char>>)
    ensures
        pieces(out@) == split_on(text@, separator),
        out.len() >= 1,
{
    let mut done: Vec<Vec<char>> = Vec::new();
    let mut current: Vec<char> = Vec::new();
    let mut i: usize = 0;
    proof {
        assert(text@.take(0) =~= Seq::<char>::empty());
        assert(pieces(done@).push(current@) =~= split_on(text@.take(0), separator));
    }
    while i < text.len()
        invariant
            i <= text.len(),
            pieces(done@).push(current@) == split_on(text@.take(i as int), separator),
        decreases text.len() - i,
    {
        let c = text[i];
        let ghost before = pieces(done@).push(current@);
        proof {
            assert(text@.take(i + 1).drop_last() =~= text@.take(i as int));
            assert(text@.take(i + 1).last() == c);
            assert(before.drop_last() =~= pieces(done@));
            assert(before.last() == current@);
        }
        if c == separator {
            let ghost old_done = done@;
            done.push(current);
            current = Vec::new();
            proof {
                assert(pieces(done@) =~= before);
                assert(pieces(done@).push(current@) =~= before.push(Seq::<char>::empty()));
            }
        } else {
            current.push(c);
        }
        i += 1;
    }
    proof {
        assert(text@.take(text.len() as int) =~= text@);
    }
    let ghost before = pieces(done@);
    let ghost last = current@;
    done.push(current);
    proof {
        assert(pieces(done@) =~= before.push(last));
    }
    done
}

/// The text without every occurrence of a character.
pub open spec fn dropping(text: Seq<char>, c: char) -> Seq<char>
    decreases text.len(),
{
    if text.len() == 0 {
        Seq::<char>::empty()
    } else if text.last() == c {
        dropping(text.drop_last(), c)
    } else {
        dropping(text.drop_last(), c).push(text.last())
    }
}

/// Copies the characters from place `from` on, leaving out every occurrence
/// of `c`. From a place past the end nothing is copied.
pub fn rest_without(text: &Vec<char>, from: usize, c: char) -> (out: Vec<char>)
    ensures
        out@ == if from <= text.len() {
            dropping(text@.skip(from as int), c)
        } else {
            Seq::<char>::empty()
        },
{
    let mut out: Vec<char> = Vec::new();
    if from > text.len() {
        return out;
    }
    let ghost tail = text@.skip(from as int);
    let mut i: usize = from;
    proof {
        assert(tail.take(0) =~= Seq::<char>::empty());
    }
    while i < text.len()
        invariant
            from <= i <= text.len(),
            tail == text@.skip(from as int),
            out@ == dropping(tail.take(i - from), c),
        decreases text.len() - i,
    {
        proof {
            assert(tail.take(i + 1 - from).drop_last() =~= tail.take(i - from));
            assert(tail.take(i + 1 - from).last() == text@[i as int]);
        }
        if text[i] != c {
            out.push(text[i]);
        }
        i += 1;
    }
    proof {
        assert(tail.take(text.len() - from) =~= tail);
    }
    out
}

/// Copies the characters before place `end`.
pub fn chars_before(text: &Vec<char>, end: usize) -> (out: Vec<char>)
    requires
        end <= text.len(),
    ensures
        out@ == text@.take(end as int),
{
    let mut out: Vec<char> = Vec::new();
    let mut i: usize = 0;
    while i < end
        invariant
            i <= end <= text.len(),
            out@ == text@.take(i as int),
        decreases end - i,
    {
        out.push(text[i]);
        proof {
            assert(text@.take(i as int).push(text@[i as int]) =~= text@.take(i + 1));
        }
        i += 1;
    }
    out
}

} // verus!
