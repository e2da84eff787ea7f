//! Counting lines, words, bytes and characters of a text in one pass.
use vstd::prelude::*;
use vstd::utf8::{encode_scalar, encode_utf8, is_ascii_chars, is_ascii_chars_encode_utf8};

verus! {

/// The four counters produced for one input.
#[derive(Clone, Copy, Debug, PartialEq, Eq)]
pub struct Stats {
    pub bytes: usize,
    pub lines: usize,
    pub words: usize,
    pub chars: usize,
}

/// Unicode `White_Space`, the set of characters that separate words.
pub open spec fn is_space(c: char) -> bool {
    let u = c as u32;
    (0x09 <= u <= 0x0D) || u == 0x20 || u == 0x85 || u == 0xA0 || u == 0x1680 || (0x2000 <= u
        <= 0x200A) || u == 0x2028 || u == 0x2029 || u == 0x202F || u == 0x205F || u == 0x3000
}

/// Number of line terminators in `s`.
pub open spec fn newlines(s: Seq<char>) -> nat
    decreases s.len(),
{
    if s.len() == 0 {
        0
    } else {
        newlines(s.drop_last()) + if s.last() == '\n' {
            1nat
        } else {
            0nat
        }
    }
}

/// 1 when the text ends in an unterminated line (the empty text counts as one
/// empty line), 0 when its last character is a line terminator.
pub open spec fn open_tail(s: Seq<char>) -> nat {
    if s.len() == 0 || s.last() != '\n' {
        1
    } else {
        0
    }
}

/// Position `i` holds the first character of a word.
pub open spec fn starts_word(s: Seq<char>, i: int) -> bool {
    !is_space(s[i]) && (i == 0 || is_space(s[i - 1]))
}

/// Number of maximal runs of non-whitespace characters in `s`.
pub open spec fn word_starts(s: Seq<char>) -> nat
    decreases s.len(),
{
    if s.len() == 0 {
        0
    } else {
        word_starts(s.drop_last()) + if starts_word(s, s.len() - 1) {
            1nat
        } else {
            0nat
        }
    }
}

/// Lines: one per terminator, plus the unterminated last line.
pub open spec fn line_count(s: Seq<char>) -> nat {
    newlines(s) + open_tail(s)
}

/// Bytes: the UTF-8 encoding, plus one for the terminator that the last line
/// is always charged with.
pub open spec fn byte_count(s: Seq<char>) -> nat {
    encode_utf8(s).len() + open_tail(s)
}

/// Characters: the Unicode scalar values, with the same terminator convention.
pub open spec fn char_count(s: Seq<char>) -> nat {
    s.len() + open_tail(s)
}

pub open spec fn word_count(s: Seq<char>) -> nat {
    word_starts(s)
}

/// The text cut at each line terminator (the terminators dropped); a text
/// ending in a terminator has an empty last piece.
pub open spec fn pieces(s: Seq<char>) -> Seq<Seq<char>>
    decreases s.len(),
{
    if s.len() == 0 {
        seq![Seq::empty()]
    } else {
        let p = pieces(s.drop_last());
        if s.last() == '\n' {
            p.push(Seq::empty())
        } else {
            p.update(p.len() - 1, p.last().push(s.last()))
        }
    }
}

/// The lines of the text: its pieces, without the empty one after a final
/// terminator. The empty text is one empty line.
pub open spec fn line_segments(s: Seq<char>) -> Seq<Seq<char>> {
    if s.len() > 0 && s.last() == '\n' {
        pieces(s).drop_last()
    } else {
        pieces(s)
    }
}

/// The sum of `f` over the lines `ls`.
pub open spec fn sum_over(ls: Seq<Seq<char>>, f: spec_fn(Seq<char>) -> nat) -> nat
    decreases ls.len(),
{
    if ls.len() == 0 {
        0
    } else {
        sum_over(ls.drop_last(), f) + f(ls.last())
    }
}

/// What one line adds to the word counter.
pub open spec fn line_words(l: Seq<char>) -> nat {
    word_starts(l)
}

/// What one line adds to the byte counter: its encoding and a terminator.
pub open spec fn line_bytes(l: Seq<char>) -> nat {
    encode_utf8(l).len() + 1
}

/// What one line adds to the character counter: its characters and a terminator.
pub open spec fn line_chars(l: Seq<char>) -> nat {
    l.len() + 1
}

proof fn lemma_encode_push(s: Seq<char>, c: char)
    ensures
        encode_utf8(s.push(c)).len() == encode_utf8(s).len() + encode_scalar(c as u32).len(),
    decreases s.len(),
{
    if s.len() == 0 {
        assert(s.push(c).drop_first() =~= Seq::<char>::empty());
        assert(encode_utf8(Seq::<char>::empty()) =~= Seq::<u8>::empty());
    } else {
        assert(s.push(c).drop_first() =~= s.drop_first().push(c));
        lemma_encode_push(s.drop_first(), c);
    }
}

proof fn lemma_sum_update_last(p: Seq<Seq<char>>, v: Seq<char>, f: spec_fn(Seq<char>) -> nat)
    requires
        p.len() > 0,
    ensures
        sum_over(p.update(p.len() - 1, v), f) == sum_over(p, f) - f(p.last()) + f(v),
{
    assert(p.update(p.len() - 1, v).drop_last() =~= p.drop_last());
}

/// The pieces of `s` and their sums, by induction on `s`.
proof fn lemma_pieces(s: Seq<char>)
    ensures
        pieces(s).len() == newlines(s) + 1,
        pieces(s).last().len() == 0 ==> s.len() == 0 || s.last() == '\n',
        pieces(s).last().len() > 0 ==> s.len() > 0 && pieces(s).last().last() == s.last(),
        sum_over(pieces(s), |l: Seq<char>| line_chars(l)) == s.len() + 1,
        sum_over(pieces(s), |l: Seq<char>| line_bytes(l)) == encode_utf8(s).len() + 1,
        sum_over(pieces(s), |l: Seq<char>| line_words(l)) == word_starts(s),
    decreases s.len(),
{
    let fc = |l: Seq<char>| line_chars(l);
    let fb = |l: Seq<char>| line_bytes(l);
    let fw = |l: Seq<char>| line_words(l);
    if s.len() == 0 {
        let e = Seq::<char>::empty();
        let none = Seq::<Seq<char>>::empty();
        assert(pieces(s) == seq![e]);
        assert(pieces(s).drop_last() =~= none);
        assert(pieces(s).last() == e);
        assert(sum_over(none, fc) == 0);
        assert(sum_over(none, fb) == 0);
        assert(sum_over(none, fw) == 0);
        assert(encode_utf8(e) =~= Seq::<u8>::empty());
        assert(sum_over(pieces(s), fc) == fc(e));
        assert(sum_over(pieces(s), fb) == fb(e));
        assert(sum_over(pieces(s), fw) == fw(e));
    } else {
        let t = s.drop_last();
        let c = s.last();
        let p = pieces(t);
        lemma_pieces(t);
        assert(t.push(c) =~= s);
        lemma_encode_push(t, c);
        if c == '\n' {
            assert(p.push(Seq::empty()).drop_last() =~= p);
            assert(encode_utf8(Seq::<char>::empty()) =~= Seq::<u8>::empty());
        } else {
            let x = p.last();
            let y = x.push(c);
            lemma_sum_update_last(p, y, fc);
            lemma_sum_update_last(p, y, fb);
            lemma_sum_update_last(p, y, fw);
            lemma_encode_push(x, c);
            assert(y.drop_last() =~= x);
            assert(pieces(s).last() == y);
        }
    }
}

/// Counting line by line: the text's lines are its terminator-delimited
/// segments, a final unterminated segment counting as one line, and each
/// segment adds one line, its words, its bytes plus one and its characters
/// plus one to the totals that `count_text` returns.
pub proof fn lemma_counts_by_line(s: Seq<char>)
    ensures
        line_count(s) == line_segments(s).len(),
        word_count(s) == sum_over(line_segments(s), |l: Seq<char>| line_words(l)),
        byte_count(s) == sum_over(line_segments(s), |l: Seq<char>| line_bytes(l)),
        char_count(s) == sum_over(line_segments(s), |l: Seq<char>| line_chars(l)),
{
    lemma_pieces(s);
    if s.len() > 0 && s.last() == '\n' {
        assert(pieces(s).last() =~= Seq::<char>::empty());
        assert(encode_utf8(Seq::<char>::empty()) =~= Seq::<u8>::empty());
    }
}

/// Extra whitespace between words leaves the word count as it is: a
/// whitespace character inserted where it cannot split a word (at either end,
/// or next to whitespace) changes nothing, and, read the other way, neither
/// does removing such a character.
pub proof fn lemma_words_ignore_extra_space(s: Seq<char>, i: int, w: char)
    requires
        0 <= i <= s.len(),
        is_space(w),
        i == 0 || i == s.len() || is_space(s[i - 1]) || is_space(s[i]),
    ensures
        word_count(s.insert(i, w)) == word_count(s),
    decreases s.len(),
{
    let u = s.insert(i, w);
    if i == s.len() {
        assert(u.drop_last() =~= s);
    } else {
        let t = s.drop_last();
        assert(u.drop_last() =~= t.insert(i, w));
        lemma_words_ignore_extra_space(t, i, w);
        assert(u.last() == s.last());
        if i < s.len() - 1 {
            assert(u[u.len() - 2] == s[s.len() - 2]);
        } else {
            assert(u[u.len() - 2] == w);
        }
    }
}

/// For a text of ASCII characters alone, the byte count equals the character
/// count.
pub proof fn lemma_ascii_bytes_are_chars(s: Seq<char>)
    requires
        is_ascii_chars(s),
    ensures
        byte_count(s) == char_count(s),
{
    is_ascii_chars_encode_utf8(s);
}

/// Whether `c` is a word separator.
pub fn is_space_char(c: char) -> (r: bool)
    ensures
        r == is_space(c),
{
    let u = c as u32;
    (0x09 <= u && u <= 0x0D) || u == 0x20 || u == 0x85 || u == 0xA0 || u == 0x1680 || (0x2000 <= u
        && u <= 0x200A) || u == 0x2028 || u == 0x2029 || u == 0x202F || u == 0x205F || u == 0x3000
}

proof fn lemma_encoded_len_bound(s: Seq<char>)
    ensures
        s.len() <= encode_utf8(s).len(),
    decreases s.len(),
{
    if s.len() > 0 {
        lemma_encoded_len_bound(s.drop_first());
    }
}

/// Counts the lines, words, bytes and characters of `text` in one pass.
///
/// Only `'\n'` ends a line: a `'\r'` before it is part of the line and is
/// counted as a byte and a character (`"a\r\n"` is 3 bytes, 3 characters).
pub fn count_text(text: &str) -> (r: Stats)
    requires
        encode_utf8(text@).len() < usize::MAX,
    ensures
        r.lines == line_count(text@),
        r.words == word_count(text@),
        r.bytes == byte_count(text@),
        r.chars == char_count(text@),
{
    proof {
        lemma_encoded_len_bound(text@);
    }
    let n_bytes = text.len();
    let mut lines: usize = 0;
    let mut words: usize = 0;
    let mut chars: usize = 0;
    let mut prev_space = true;
    let mut last_newline = false;
    for c in it: text.chars()
        invariant
            it.seq() == text@,
            chars == it.index(),
            text@.len() <= n_bytes,
            n_bytes == encode_utf8(text@).len(),
            lines <= chars,
            words <= chars,
            lines == newlines(text@.take(it.index() as int)),
            words == word_starts(text@.take(it.index() as int)),
            prev_space == (it.index() == 0 || is_space(text@[it.index() - 1])),
            last_newline == (it.index() > 0 && text@[it.index() - 1] == '\n'),
    {
        let ghost i = chars as int;
        assert(text@.take(i + 1).drop_last() =~= text@.take(i));
        if c == '\n' {
            lines = lines + 1;
        }
        let space = is_space_char(c);
        if !space && prev_space {
            words = words + 1;
        }
        prev_space = space;
        last_newline = c == '\n';
        chars = chars + 1;
    }
    assert(text@.take(text@.len() as int) =~= text@);
    let tail: usize = if last_newline {
        0
    } else {
        1
    };
    Stats { bytes: n_bytes + tail, lines: lines + tail, words, chars: chars + tail }
}

} // verus!
