//! One line of a document: its words, and how wide they are together.

use crate::packing::{all_words, char_total, fits, lemma_char_total_lower, lemma_char_total_push};
use crate::units::{width, width_of};
use crate::words::is_word;
use core::slice::Iter;
use vstd::prelude::*;
use vstd::std_specs::iter::IteratorSpec;

verus! {

/// The words that stand on one line, in their order, with the code units
/// that they take together.
pub struct Line<'a> {
    words: Vec<&'a str>,
    char_counter: u32,
}

impl<'a> View for Line<'a> {
    type V = Seq<Seq<char>>;

    /// The words of the line.
    closed spec fn view(&self) -> Seq<Seq<char>> {
        Seq::new(self.words@.len(), |i: int| self.words@[i]@)
    }
}

impl<'a> Line<'a> {
    /// Whether the line holds at least one word, only words, and the right count.
    pub closed spec fn wf(&self) -> bool {
        &&& self@.len() >= 1
        &&& all_words(self@)
        &&& self.char_counter == char_total(self@)
    }

    /// What a well-formed line is, said of its words alone.
    pub proof fn lemma_wf(&self)
        requires
            self.wf(),
        ensures
            self@.len() >= 1,
            all_words(self@),
            self@.len() <= char_total(self@) <= u32::MAX,
    {
        lemma_char_total_lower(self@);
    }

    /// A line that holds `word` alone.
    pub fn new_with_word(word: &'a str) -> (line: Line<'a>)
        requires
            is_word(word@),
            width(word@) <= u32::MAX,
        ensures
            line.wf(),
            line@ == seq![word@],
    {
        let char_counter: u32 = width_of(word) as u32;
        let mut words: Vec<&'a str> = Vec::new();
        words.push(word);
        let line = Line { words, char_counter };
        proof {
            assert(line@ =~= seq![word@]);
            lemma_char_total_push(Seq::empty(), word@);
        }
        line
    }

    /// Puts `word` behind the words of the line.
    pub fn add_word(&mut self, word: &'a str)
        requires
            old(self).wf(),
            is_word(word@),
            char_total(old(self)@) + width(word@) <= u32::MAX,
        ensures
            final(self).wf(),
            final(self)@ == old(self)@.push(word@),
    {
        self.char_counter += width_of(word) as u32;
        self.words.push(word);
        proof {
            assert(self@ =~= old(self)@.push(word@));
            lemma_char_total_push(old(self)@, word@);
        }
    }

    /// Whether `word` can follow the words of the line on a line of `line_width`.
    pub fn word_fits(&self, word: &'a str, line_width: u32) -> (b: bool)
        requires
            self.wf(),
        ensures
            b == fits(self@, word@, line_width as nat),
    {
        let len = width_of(word);
        let used: u64 = self.char_count() as u64 + self.word_count() as u64;
        len <= line_width as usize && used + len as u64 <= line_width as u64
    }

    /// The code units that the words of the line take together.
    pub fn char_count(&self) -> (n: u32)
        requires
            self.wf(),
        ensures
            n == char_total(self@),
    {
        self.char_counter
    }

    /// The number of words on the line.
    pub fn word_count(&self) -> (n: u32)
        requires
            self.wf(),
        ensures
            n == self@.len(),
    {
        proof {
            self.lemma_wf();
        }
        self.words.len() as u32
    }

    /// The words of the line, from the first to the last.
    pub fn iter(&self) -> (words: Iter<'_, &'a str>)
        ensures
            words.remaining().len() == self@.len(),
            forall|i: int| 0 <= i < self@.len() ==> (#[trigger] words.remaining()[i])@ == self@[i],
            words.initial_value_relation(&words),
            words.decrease() is Some,
    {
        self.words.iter()
    }
}

} // verus!
