//! Whitespace, and the words that it separates.

use crate::units::{char_width_of, cut, lemma_width_concat, lemma_width_single, width_of, width};
use vstd::prelude::*;
use vstd::std_specs::iter::IteratorSpec;

verus! {

/// Whether `c` has the Unicode property `White_Space`.
pub open spec fn white_space(c: char) -> bool {
    let scalar = c as u32;
    ||| 0x09 <= scalar <= 0x0D
    ||| scalar == 0x20
    ||| scalar == 0x85
    ||| scalar == 0xA0
    ||| scalar == 0x1680
    ||| 0x2000 <= scalar <= 0x200A
    ||| scalar == 0x2028
    ||| scalar == 0x2029
    ||| scalar == 0x202F
    ||| scalar == 0x205F
    ||| scalar == 0x3000
}

/// Whether every character of `text` is whitespace (`blank`) or none is (`!blank`).
pub open spec fn is_run(text: Seq<char>, blank: bool) -> bool {
    forall|i: int| 0 <= i < text.len() ==> white_space(#[trigger] text[i]) == blank
}

/// Whether `text` is whitespace throughout; the empty text is.
pub open spec fn is_blank(text: Seq<char>) -> bool {
    is_run(text, true)
}

/// Whether `text` can stand as one word: it is not empty and holds no whitespace.
pub open spec fn is_word(text: Seq<char>) -> bool {
    text.len() > 0 && is_run(text, false)
}

/// The length of the longest prefix of `text` that is a run of whitespace
/// (`blank`) or of other characters (`!blank`).
pub open spec fn run_len(text: Seq<char>, blank: bool) -> nat
    decreases text.len(),
{
    if text.len() == 0 || white_space(text[0]) != blank {
        0
    } else {
        1 + run_len(text.drop_first(), blank)
    }
}

/// The words of `text`, in order: skip the whitespace, take what stands before
/// the next whitespace, and go on behind it.
pub open spec fn words(text: Seq<char>) -> Seq<Seq<char>>
    decreases text.len(),
{
    let rest = text.skip(run_len(text, true) as int);
    let n = run_len(rest, false) as int;
    if n == 0 {
        Seq::empty()
    } else {
        proof {
            lemma_run_len_bound(text, true);
            lemma_run_len_bound(rest, false);
        }
        seq![rest.take(n)] + words(rest.skip(n))
    }
}

/// A run is no longer than the text, and is followed by a character of the other kind.
pub proof fn lemma_run_len_bound(text: Seq<char>, blank: bool)
    ensures
        run_len(text, blank) <= text.len(),
        is_run(text.take(run_len(text, blank) as int), blank),
        run_len(text, blank) < text.len() ==> white_space(text[run_len(text, blank) as int])
            != blank,
    decreases text.len(),
{
    if text.len() > 0 && white_space(text[0]) == blank {
        let tail = text.drop_first();
        lemma_run_len_bound(tail, blank);
        let n = run_len(text, blank) as int;
        assert forall|i: int| 0 <= i < n implies white_space(#[trigger] text.take(n)[i])
            == blank by {
            if i > 0 {
                assert(text.take(n)[i] == tail.take(n - 1)[i - 1]);
            }
        }
    }
}

/// A run at the start of a text is counted whole, and the count goes on behind it.
pub proof fn lemma_run_len_concat(run: Seq<char>, rest: Seq<char>, blank: bool)
    requires
        is_run(run, blank),
    ensures
        run_len(run + rest, blank) == run.len() + run_len(rest, blank),
    decreases run.len(),
{
    if run.len() == 0 {
        assert(run + rest =~= rest);
    } else {
        assert((run + rest)[0] == run[0]);
        assert((run + rest).drop_first() =~= run.drop_first() + rest);
        assert forall|i: int| 0 <= i < run.drop_first().len() implies white_space(
            #[trigger] run.drop_first()[i],
        ) == blank by {
            assert(run.drop_first()[i] == run[i + 1]);
        }
        lemma_run_len_concat(run.drop_first(), rest, blank);
    }
}

/// A run that ends within a text is not changed by what follows the text.
pub proof fn lemma_run_len_within(text: Seq<char>, rest: Seq<char>, blank: bool)
    requires
        run_len(text, blank) < text.len(),
    ensures
        run_len(text + rest, blank) == run_len(text, blank),
    decreases text.len(),
{
    assert((text + rest)[0] == text[0]);
    if white_space(text[0]) == blank {
        assert((text + rest).drop_first() =~= text.drop_first() + rest);
        lemma_run_len_within(text.drop_first(), rest, blank);
    }
}

/// Whitespace before a text adds no word.
pub proof fn lemma_words_after_blank(blank: Seq<char>, rest: Seq<char>)
    requires
        is_blank(blank),
    ensures
        words(blank + rest) == words(rest),
{
    lemma_run_len_concat(blank, rest, true);
    lemma_run_len_bound(rest, true);
    assert((blank + rest).skip(run_len(blank + rest, true) as int) =~= rest.skip(
        run_len(rest, true) as int,
    ));
}

/// A word that ends the text, or that whitespace follows, is the first word.
pub proof fn lemma_words_first(word: Seq<char>, rest: Seq<char>)
    requires
        is_word(word),
        rest.len() == 0 || white_space(rest[0]),
    ensures
        words(word + rest) == seq![word] + words(rest),
{
    let text = word + rest;
    assert(text[0] == word[0]);
    assert(run_len(text, true) == 0);
    assert(text.skip(0) =~= text);
    lemma_run_len_concat(word, rest, false);
    assert(run_len(rest, false) == 0);
    assert(text.take(word.len() as int) =~= word);
    assert(text.skip(word.len() as int) =~= rest);
}

/// Where two texts meet at whitespace, or one of them is empty, the words of
/// both together are the words of the first and then those of the second.
pub proof fn lemma_words_concat(head: Seq<char>, tail: Seq<char>)
    requires
        head.len() == 0 || tail.len() == 0 || white_space(head.last()) || white_space(tail[0]),
    ensures
        words(head + tail) == words(head) + words(tail),
    decreases head.len(),
{
    let skipped = run_len(head, true) as int;
    lemma_run_len_bound(head, true);
    if tail.len() == 0 {
        assert(head + tail =~= head);
        assert(words(head) + words(tail) =~= words(head));
    } else if skipped == head.len() {
        assert(head.take(skipped) =~= head);
        lemma_words_after_blank(head, tail);
        lemma_words_none(head);
        assert(words(head) + words(tail) =~= words(tail));
    } else {
        let rest = head.skip(skipped);
        let taken = run_len(rest, false) as int;
        lemma_run_len_bound(rest, false);
        lemma_run_len_within(head, tail, true);
        assert((head + tail).skip(skipped) =~= rest + tail);
        if taken < rest.len() {
            lemma_run_len_within(rest, tail, false);
        } else {
            assert(rest.take(taken) =~= rest);
            assert(rest.last() == head.last());
            lemma_run_len_concat(rest, tail, false);
        }
        assert(run_len(rest + tail, false) == taken);
        assert((rest + tail).take(taken) =~= rest.take(taken));
        assert((rest + tail).skip(taken) =~= rest.skip(taken) + tail);
        if rest.skip(taken).len() > 0 {
            assert(rest.skip(taken).last() == head.last());
        }
        lemma_words_concat(rest.skip(taken), tail);
        assert(words(head + tail) =~= words(head) + words(tail));
    }
}

/// A text has no words just when it is whitespace throughout.
pub proof fn lemma_words_none(text: Seq<char>)
    ensures
        words(text).len() == 0 <==> is_blank(text),
{
    let n = run_len(text, true) as int;
    lemma_run_len_bound(text, true);
    lemma_run_len_bound(text.skip(n), false);
    if n < text.len() {
        assert(text.skip(n)[0] == text[n]);
        assert(run_len(text.skip(n), false) > 0);
    } else {
        assert(text.take(n) =~= text);
    }
}

/// Every word of a text is a word: not empty, and free of whitespace.
pub proof fn lemma_words_are_words(text: Seq<char>)
    ensures
        forall|i: int| 0 <= i < words(text).len() ==> is_word(#[trigger] words(text)[i]),
    decreases text.len(),
{
    let rest = text.skip(run_len(text, true) as int);
    let n = run_len(rest, false) as int;
    if n > 0 {
        lemma_run_len_bound(text, true);
        lemma_run_len_bound(rest, false);
        lemma_words_are_words(rest.skip(n));
        assert forall|i: int| 0 <= i < words(text).len() implies is_word(
            #[trigger] words(text)[i],
        ) by {
            if i > 0 {
                assert(words(text)[i] == words(rest.skip(n))[i - 1]);
            }
        }
    }
}

/// Whether `c` has the Unicode property `White_Space`.
pub fn is_whitespace(c: char) -> (b: bool)
    ensures
        b == white_space(c),
{
    let scalar: u32 = c as u32;
    (0x09 <= scalar && scalar <= 0x0D) || scalar == 0x20 || scalar == 0x85 || scalar == 0xA0
        || scalar == 0x1680 || (0x2000 <= scalar && scalar <= 0x200A) || scalar == 0x2028
        || scalar == 0x2029 || scalar == 0x202F || scalar == 0x205F || scalar == 0x3000
}

/// The code units taken by the run of whitespace (`blank`) or of other
/// characters (`!blank`) that `text` starts with.
fn run_width(text: &str, blank: bool) -> (n: usize)
    ensures
        n == width(text@.take(run_len(text@, blank) as int)),
{
    let total = width_of(text);
    let mut chars = text.chars();
    let mut n: usize = 0;
    let ghost mut i: int = 0;
    proof {
        assert(text@.skip(0) =~= text@);
        assert(text@.take(0) =~= Seq::<char>::empty());
    }
    loop
        invariant_except_break
            chars.remaining() == text@.skip(i),
        invariant
            0 <= i <= text@.len(),
            run_len(text@, blank) == i + run_len(text@.skip(i), blank),
            n == width(text@.take(i)),
            total == width(text@),
        ensures
            run_len(text@, blank) == i,
        decreases text@.len() - i,
    {
        match chars.next() {
            Some(c) => {
                assert(c == text@.skip(i)[0]);
                if is_whitespace(c) == blank {
                    proof {
                        assert(text@.skip(i).drop_first() =~= text@.skip(i + 1));
                        assert(text@.take(i + 1) =~= text@.take(i) + seq![c]);
                        lemma_width_concat(text@.take(i), seq![c]);
                        lemma_width_single(c);
                        assert(text@ =~= text@.take(i + 1) + text@.skip(i + 1));
                        lemma_width_concat(text@.take(i + 1), text@.skip(i + 1));
                    }
                    n = n + char_width_of(c);
                    proof {
                        i = i + 1;
                    }
                } else {
                    break ;
                }
            },
            None => {
                break ;
            },
        }
    }
    n
}

/// The words of a text that are still to come, handed out one at a time.
pub struct Words<'a> {
    rest: &'a str,
}

impl<'a> View for Words<'a> {
    type V = Seq<Seq<char>>;

    /// The words still to come.
    closed spec fn view(&self) -> Seq<Seq<char>> {
        words(self.rest@)
    }
}

impl<'a> Words<'a> {
    /// The words of `text`, none handed out yet.
    pub fn new(text: &'a str) -> (all: Words<'a>)
        ensures
            all@ == words(text@),
    {
        Words { rest: text }
    }

    /// Hands out the next word and moves behind it, or tells that none is left.
    pub fn next_word(&mut self) -> (word: Option<&'a str>)
        ensures
            match word {
                Some(w) => old(self)@.len() > 0 && w@ == old(self)@[0] && final(self)@ == old(
                    self,
                )@.drop_first(),
                None => old(self)@.len() == 0 && final(self)@.len() == 0,
            },
    {
        let text: &'a str = self.rest;
        let ghost skipped = run_len(text@, true) as int;
        proof {
            lemma_run_len_bound(text@, true);
        }
        let skip = run_width(text, true);
        let (_, tail) = cut(text, Ghost(skipped), skip);
        let ghost taken = run_len(tail@, false) as int;
        proof {
            lemma_run_len_bound(tail@, false);
        }
        let len = run_width(tail, false);
        let (word, rest) = cut(tail, Ghost(taken), len);
        self.rest = rest;
        if len == 0 {
            None
        } else {
            Some(word)
        }
    }
}

} // verus!
