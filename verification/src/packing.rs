//! Greedy packing of words onto lines of a fixed width.
//!
//! A line is the sequence of its words; a layout is the sequence of its lines.

use crate::units::width;
use crate::words::is_word;
use vstd::prelude::*;

verus! {

/// The code units that the words of `line` take together, blanks between them not counted.
pub open spec fn char_total(line: Seq<Seq<char>>) -> nat
    decreases line.len(),
{
    if line.len() == 0 {
        0
    } else {
        char_total(line.drop_last()) + width(line.last())
    }
}

/// Whether `word` can follow the words of `line` on a line of `line_width`:
/// the words, `word`, and one blank after each word already there must fit.
pub open spec fn fits(line: Seq<Seq<char>>, word: Seq<char>, line_width: nat) -> bool {
    char_total(line) + line.len() + width(word) <= line_width
}

/// The layout `lines` with `word` placed behind it: on the last line if it fits
/// there, else on a new line of its own.
pub open spec fn place(lines: Seq<Seq<Seq<char>>>, word: Seq<char>, line_width: nat) -> Seq<
    Seq<Seq<char>>,
> {
    if lines.len() > 0 && fits(lines.last(), word, line_width) {
        lines.drop_last().push(lines.last().push(word))
    } else {
        lines.push(seq![word])
    }
}

/// The layout of `words` on lines of `line_width`: each word placed in turn,
/// none moved again afterwards.
pub open spec fn pack(words: Seq<Seq<char>>, line_width: nat) -> Seq<Seq<Seq<char>>>
    decreases words.len(),
{
    if words.len() == 0 {
        Seq::empty()
    } else {
        place(pack(words.drop_last(), line_width), words.last(), line_width)
    }
}

/// Whether none of `words` is wider than `line_width`.
pub open spec fn all_fit(words: Seq<Seq<char>>, line_width: nat) -> bool {
    forall|i: int| 0 <= i < words.len() ==> width(#[trigger] words[i]) <= line_width
}

/// Whether each of `words` is a word: not empty, and free of whitespace.
pub open spec fn all_words(words: Seq<Seq<char>>) -> bool {
    forall|i: int| 0 <= i < words.len() ==> is_word(#[trigger] words[i])
}

/// Whether `line` is a line of a layout of width `line_width`: it holds at
/// least one word, and its words with one blank between neighbours fit.
pub open spec fn is_line(line: Seq<Seq<char>>, line_width: nat) -> bool {
    &&& line.len() >= 1
    &&& all_words(line)
    &&& char_total(line) + line.len() - 1 <= line_width
}

/// Whether `lines` is a greedy layout of width `line_width`: every line is
/// one, and no line could have taken the first word of the next.
pub open spec fn is_layout(lines: Seq<Seq<Seq<char>>>, line_width: nat) -> bool {
    &&& forall|i: int| 0 <= i < lines.len() ==> is_line(#[trigger] lines[i], line_width)
    &&& forall|i: int|
        0 < i < lines.len() ==> !fits(lines[i - 1], (#[trigger] lines[i])[0], line_width)
}

/// A word more on a line adds its width to the line's total.
pub proof fn lemma_char_total_push(line: Seq<Seq<char>>, word: Seq<char>)
    ensures
        char_total(line.push(word)) == char_total(line) + width(word),
{
    assert(line.push(word).drop_last() =~= line);
}

/// A line of words holds at least one code unit for each of them.
pub proof fn lemma_char_total_lower(line: Seq<Seq<char>>)
    requires
        all_words(line),
    ensures
        char_total(line) >= line.len(),
    decreases line.len(),
{
    if line.len() > 0 {
        lemma_char_total_lower(line.drop_last());
    }
}

/// Placing a word that is no wider than the line keeps a layout a layout.
pub proof fn lemma_place_is_layout(lines: Seq<Seq<Seq<char>>>, word: Seq<char>, line_width: nat)
    requires
        is_layout(lines, line_width),
        is_word(word),
        width(word) <= line_width,
    ensures
        is_layout(place(lines, word, line_width), line_width),
{
    if lines.len() > 0 && fits(lines.last(), word, line_width) {
        lemma_char_total_push(lines.last(), word);
    } else {
        assert(char_total(seq![word]) == width(word)) by {
            lemma_char_total_push(Seq::empty(), word);
            assert(Seq::<Seq<char>>::empty().push(word) =~= seq![word]);
        }
    }
}

/// Placing a word puts it behind all the words of the layout, and moves none.
pub proof fn lemma_place_flatten(lines: Seq<Seq<Seq<char>>>, word: Seq<char>, line_width: nat)
    ensures
        place(lines, word, line_width).flatten() == lines.flatten().push(word),
{
    broadcast use Seq::lemma_flatten_push;

    if lines.len() > 0 && fits(lines.last(), word, line_width) {
        assert(lines =~= lines.drop_last().push(lines.last()));
    }
}

/// Packing words that all fit the line gives a layout that holds just these
/// words, in their order.
pub proof fn lemma_pack_is_layout(words: Seq<Seq<char>>, line_width: nat)
    requires
        all_words(words),
        all_fit(words, line_width),
    ensures
        is_layout(pack(words, line_width), line_width),
        pack(words, line_width).flatten() == words,
        pack(words, line_width).len() == 0 <==> words.len() == 0,
    decreases words.len(),
{
    if words.len() > 0 {
        let front = words.drop_last();
        lemma_pack_is_layout(front, line_width);
        lemma_place_is_layout(pack(front, line_width), words.last(), line_width);
        lemma_place_flatten(pack(front, line_width), words.last(), line_width);
    }
}

/// A layout without the last word of its last line, and without that line
/// where the word stood alone.
pub open spec fn without_last(lines: Seq<Seq<Seq<char>>>) -> Seq<Seq<Seq<char>>>
    recommends
        lines.len() > 0,
{
    if lines.last().len() > 1 {
        lines.drop_last().push(lines.last().drop_last())
    } else {
        lines.drop_last()
    }
}

/// Taking the last word from a layout leaves a layout, and placing the word
/// again gives the first one back.
pub proof fn lemma_without_last(lines: Seq<Seq<Seq<char>>>, line_width: nat)
    requires
        is_layout(lines, line_width),
        lines.len() > 0,
    ensures
        is_layout(without_last(lines), line_width),
        lines.flatten() == without_last(lines).flatten().push(lines.last().last()),
        place(without_last(lines), lines.last().last(), line_width) == lines,
{
    broadcast use Seq::lemma_flatten_push;

    let last = lines.last();
    assert(last =~= last.drop_last().push(last.last()));
    assert(lines =~= lines.drop_last().push(last));
    if last.len() == 1 {
        assert(last =~= seq![last.last()]);
    }
}

/// A layout is the packing of its words: words can be laid out greedily in
/// one way only.
pub proof fn lemma_layout_is_packed(lines: Seq<Seq<Seq<char>>>, line_width: nat)
    requires
        is_layout(lines, line_width),
    ensures
        pack(lines.flatten(), line_width) == lines,
    decreases lines.flatten().len(),
{
    if lines.len() > 0 {
        let shorter = without_last(lines);
        lemma_without_last(lines, line_width);
        lemma_layout_is_packed(shorter, line_width);
        assert(lines.flatten().drop_last() =~= shorter.flatten());
    }
}

} // verus!
