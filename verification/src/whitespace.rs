//! Trimming a text and cutting it into words.
use crate::text::{from_chars, texts, to_chars};
use vstd::prelude::*;

verus! {

/// Whether a character has the Unicode property `White_Space`.
pub open spec fn is_space(c: char) -> bool {
    ||| '\u{9}' <= c <= '\u{d}'
    ||| c == '\u{20}'
    ||| c == '\u{85}'
    ||| c == '\u{a0}'
    ||| c == '\u{1680}'
    ||| '\u{2000}' <= c <= '\u{200a}'
    ||| c == '\u{2028}'
    ||| c == '\u{2029}'
    ||| c == '\u{202f}'
    ||| c == '\u{205f}'
    ||| c == '\u{3000}'
}

/// A text without the white space in front.
pub open spec fn trim_start(s: Seq<char>) -> Seq<char>
    decreases s.len(),
{
    if s.len() > 0 && is_space(s[0]) {
        trim_start(s.skip(1))
    } else {
        s
    }
}

/// A text without the white space behind.
pub open spec fn trim_end(s: Seq<char>) -> Seq<char>
    decreases s.len(),
{
    if s.len() > 0 && is_space(s.last()) {
        trim_end(s.drop_last())
    } else {
        s
    }
}

/// A text without the white space around it.
pub open spec fn trim(s: Seq<char>) -> Seq<char> {
    trim_end(trim_start(s))
}

/// Where the first white space stands, or the length of the text where there is
/// none.
pub open spec fn first_space(s: Seq<char>) -> int
    decreases s.len(),
{
    if s.len() == 0 || is_space(s[0]) {
        0
    } else {
        1 + first_space(s.skip(1))
    }
}

/// A text is no shorter than what is left of it.
pub proof fn lemma_trim_start_len(s: Seq<char>)
    ensures
        trim_start(s).len() <= s.len(),
        trim_start(s).len() > 0 ==> !is_space(trim_start(s)[0]),
    decreases s.len(),
{
    if s.len() > 0 && is_space(s[0]) {
        lemma_trim_start_len(s.skip(1));
    }
}

/// The first white space stands within the text.
pub proof fn lemma_first_space(s: Seq<char>)
    ensures
        0 <= first_space(s) <= s.len(),
        s.len() > 0 && !is_space(s[0]) ==> first_space(s) > 0,
    decreases s.len(),
{
    if s.len() > 0 && !is_space(s[0]) {
        lemma_first_space(s.skip(1));
    }
}

/// The longest parts of a text that hold no white space.
pub open spec fn words(s: Seq<char>) -> Seq<Seq<char>>
    decreases s.len(),
    via words_decreases
{
    let t = trim_start(s);
    if t.len() == 0 {
        Seq::empty()
    } else {
        seq![t.take(first_space(t))] + words(t.skip(first_space(t)))
    }
}

#[via_fn]
proof fn words_decreases(s: Seq<char>) {
    lemma_trim_start_len(s);
    lemma_first_space(trim_start(s));
}

/// Tells whether a character is white space.
pub fn is_whitespace(c: char) -> (r: bool)
    ensures
        r == is_space(c),
{
    ('\u{9}' <= c && c <= '\u{d}') || c == '\u{20}' || c == '\u{85}' || c == '\u{a0}' || c
        == '\u{1680}' || ('\u{2000}' <= c && c <= '\u{200a}') || c == '\u{2028}' || c == '\u{2029}'
        || c == '\u{202f}' || c == '\u{205f}' || c == '\u{3000}'
}

/// Finds the end of the white space behind a place.
fn skip_space(chars: &Vec<char>, from: usize) -> (r: usize)
    requires
        from <= chars@.len(),
    ensures
        from <= r <= chars@.len(),
        chars@.skip(r as int) == trim_start(chars@.skip(from as int)),
{
    let mut at: usize = from;
    while at < chars.len() && is_whitespace(chars[at])
        invariant
            from <= at <= chars@.len(),
            trim_start(chars@.skip(at as int)) == trim_start(chars@.skip(from as int)),
        decreases chars@.len() - at,
    {
        assert(chars@.skip(at as int).skip(1) =~= chars@.skip(at + 1));
        at += 1;
    }
    at
}

/// Removes the white space around a text.
pub fn trim_text(s: &str) -> (r: String)
    ensures
        r@ == trim(s@),
{
    let chars: Vec<char> = to_chars(s);
    let from: usize = skip_space(&chars, 0);
    assert(chars@.skip(0) =~= s@);
    let mut to: usize = chars.len();
    assert(chars@.subrange(from as int, to as int) =~= chars@.skip(from as int));
    while to > from && is_whitespace(chars[to - 1])
        invariant
            from <= to <= chars@.len(),
            trim_end(chars@.subrange(from as int, to as int)) == trim(s@),
        decreases to,
    {
        assert(chars@.subrange(from as int, to as int).drop_last() =~= chars@.subrange(
            from as int,
            to - 1,
        ));
        to -= 1;
    }
    from_chars(&chars, from, to)
}

/// Cuts a text into its words.
pub fn split_whitespace(s: &str) -> (r: Vec<String>)
    ensures
        texts(r@) == words(s@),
{
    let chars: Vec<char> = to_chars(s);
    let mut out: Vec<String> = Vec::new();
    let mut at: usize = 0;
    assert(chars@.skip(0) =~= s@);
    assert(texts(out@) + words(s@) =~= words(s@));
    loop
        invariant
            at <= chars@.len(),
            texts(out@) + words(chars@.skip(at as int)) == words(s@),
        decreases chars@.len() - at,
    {
        let from: usize = skip_space(&chars, at);
        let ghost t = chars@.skip(from as int);
        if from == chars.len() {
            assert(texts(out@) + words(chars@.skip(at as int)) =~= texts(out@));
            return out;
        }
        proof {
            lemma_trim_start_len(chars@.skip(at as int));
            lemma_first_space(t);
        }
        let mut to: usize = from;
        assert(chars@.skip(to as int) == t);
        while to < chars.len() && !is_whitespace(chars[to])
            invariant
                from <= to <= chars@.len(),
                to - from + first_space(chars@.skip(to as int)) == first_space(t),
            decreases chars@.len() - to,
        {
            assert(chars@.skip(to as int).skip(1) =~= chars@.skip(to + 1));
            to += 1;
        }
        let ghost before = texts(out@);
        let word: String = from_chars(&chars, from, to);
        let ghost w = word@;
        out.push(word);
        proof {
            assert(w =~= t.take(first_space(t)));
            assert(chars@.skip(to as int) =~= t.skip(first_space(t)));
            assert(texts(out@) =~= before.push(w));
            assert(texts(out@) + words(chars@.skip(to as int)) =~= before + (seq![w] + words(
                chars@.skip(to as int),
            )));
        }
        at = to;
    }
}

/// Whether a text is white space and nothing else.
pub open spec fn all_space(s: Seq<char>) -> bool {
    forall|i: int| 0 <= i < s.len() ==> is_space(#[trigger] s[i])
}

proof fn lemma_all_space_trims_to_nothing(s: Seq<char>)
    requires
        all_space(s),
    ensures
        trim_start(s).len() == 0,
    decreases s.len(),
{
    if s.len() > 0 {
        assert(is_space(s[0]));
        let rest = s.skip(1);
        assert forall|i: int| 0 <= i < rest.len() implies is_space(#[trigger] rest[i]) by {
            assert(rest[i] == s[i + 1]);
        }
        lemma_all_space_trims_to_nothing(rest);
    }
}

/// White space in front of a text or behind it is trimmed away.
pub proof fn law_trim_ignores_space_around(front: Seq<char>, s: Seq<char>, behind: Seq<char>)
    requires
        all_space(front),
        all_space(behind),
    ensures
        trim(front + s + behind) == trim(s),
    decreases front.len() + s.len() + behind.len(),
{
    let whole = front + s + behind;
    if front.len() > 0 {
        assert(is_space(front[0]));
        let rest = front.skip(1);
        assert forall|i: int| 0 <= i < rest.len() implies is_space(#[trigger] rest[i]) by {
            assert(rest[i] == front[i + 1]);
        }
        law_trim_ignores_space_around(rest, s, behind);
        assert(whole.skip(1) =~= rest + s + behind);
        assert(whole[0] == front[0]);
    } else if s.len() > 0 && is_space(s[0]) {
        let none = Seq::<char>::empty();
        law_trim_ignores_space_around(none, s.skip(1), behind);
        assert(whole.skip(1) =~= none + s.skip(1) + behind);
        assert(whole[0] == s[0]);
    } else if s.len() == 0 {
        assert(whole =~= behind);
        assert(s =~= Seq::<char>::empty());
        lemma_all_space_trims_to_nothing(behind);
    } else if behind.len() > 0 {
        let rest = behind.drop_last();
        assert forall|i: int| 0 <= i < rest.len() implies is_space(#[trigger] rest[i]) by {
            assert(rest[i] == behind[i]);
        }
        law_trim_ignores_space_around(front, s, rest);
        assert(is_space(behind[behind.len() - 1]));
        assert(whole.drop_last() =~= front + s + rest);
        assert(whole.last() == behind.last());
        assert(whole[0] == s[0]);
        assert((front + s + rest)[0] == s[0]);
    } else {
        assert(whole =~= s);
    }
}

/// Of the characters below 128, the tab, the line breaks and the blank are white
/// space, and no others. Of the rest, the next line, the blanks of a fixed width and
/// the separators of lines and paragraphs are.
pub proof fn law_white_space(c: char)
    ensures
        (c as u32) < 128 ==> (is_space(c) <==> c as u32 == 32 || 9 <= c as u32 <= 13),
        (c as u32) >= 128 ==> (is_space(c) <==> c as u32 == 0x85 || c as u32 == 0xA0 || c as u32
            == 0x1680 || 0x2000 <= c as u32 <= 0x200A || c as u32 == 0x2028 || c as u32 == 0x2029
            || c as u32 == 0x202F || c as u32 == 0x205F || c as u32 == 0x3000),
{
}

proof fn lemma_trim_keeps(s: Seq<char>)
    requires
        s.len() > 0 ==> !is_space(s[0]) && !is_space(s.last()),
    ensures
        trim(s) == s,
{
}

/// A text that neither starts nor ends with white space is what is left of it with
/// white space around it.
pub proof fn law_trim_leaves_the_text(front: Seq<char>, s: Seq<char>, behind: Seq<char>)
    requires
        all_space(front),
        all_space(behind),
        s.len() > 0 ==> !is_space(s[0]) && !is_space(s.last()),
    ensures
        trim(front + s + behind) == s,
{
    law_trim_ignores_space_around(front, s, behind);
    lemma_trim_keeps(s);
}

proof fn lemma_first_space_is(s: Seq<char>, at: int)
    requires
        0 <= at <= s.len(),
        forall|i: int| 0 <= i < at ==> !is_space(#[trigger] s[i]),
        at < s.len() ==> is_space(s[at]),
    ensures
        first_space(s) == at,
    decreases s.len(),
{
    if at > 0 {
        assert(!is_space(s[0]));
        let rest = s.skip(1);
        assert forall|i: int| 0 <= i < at - 1 implies !is_space(#[trigger] rest[i]) by {
            assert(rest[i] == s[i + 1]);
        }
        lemma_first_space_is(rest, at - 1);
    }
}

proof fn lemma_trim_start_drops(front: Seq<char>, s: Seq<char>)
    requires
        all_space(front),
        s.len() > 0 ==> !is_space(s[0]),
    ensures
        trim_start(front + s) == s,
    decreases front.len(),
{
    if front.len() == 0 {
        assert(front + s =~= s);
    } else {
        assert(is_space(front[0]));
        let rest = front.skip(1);
        assert forall|i: int| 0 <= i < rest.len() implies is_space(#[trigger] rest[i]) by {
            assert(rest[i] == front[i + 1]);
        }
        lemma_trim_start_drops(rest, s);
        assert((front + s).skip(1) =~= rest + s);
        assert((front + s)[0] == front[0]);
    }
}

/// The words of a text are its parts without white space: white space in front is
/// left out, a word goes up to the next white space or the end of the text, and
/// behind it come the words of the rest.
pub proof fn law_words_are_the_parts(front: Seq<char>, word: Seq<char>, rest: Seq<char>)
    requires
        all_space(front),
        forall|i: int| 0 <= i < word.len() ==> !is_space(#[trigger] word[i]),
        rest.len() > 0 ==> is_space(rest[0]),
    ensures
        word.len() > 0 ==> words(front + (word + rest)) == seq![word] + words(rest),
        words(front).len() == 0,
{
    lemma_all_space_trims_to_nothing(front);
    if word.len() > 0 {
        let s = word + rest;
        assert(!is_space(word[0]));
        lemma_trim_start_drops(front, s);
        assert forall|i: int| 0 <= i < word.len() implies !is_space(#[trigger] s[i]) by {
            assert(s[i] == word[i]);
        }
        lemma_first_space_is(s, word.len() as int);
        assert(s.take(word.len() as int) =~= word);
        assert(s.skip(word.len() as int) =~= rest);
    }
}

} // verus!
