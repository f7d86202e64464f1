//! A text laid out on lines of a fixed width, and written out justified.

use crate::line::Line;
use crate::packing::{
    all_fit, char_total, is_layout, lemma_pack_is_layout, lemma_place_is_layout, pack, place,
};
use crate::render::{
    blanks, is_justified, joined, lemma_render_lines, lemma_render_words, render, render_line,
    spread,
};
use crate::units::{width, width_of};
use crate::words::{is_blank, is_word, lemma_words_are_words, lemma_words_none, words, Words};
use crate::DocError;
use vstd::prelude::*;
use vstd::string::StringExecFns;

verus! {

/// What a document is made of: its lines, each the sequence of its words,
/// and the width that every line is written out to.
pub struct Layout {
    pub lines: Seq<Seq<Seq<char>>>,
    pub line_width: nat,
}

/// The words of a text, packed onto lines of one width.
///
/// A document is always a greedy layout of its words: each line holds at
/// least one word and is not overfull, and no line could have taken the
/// first word of the next.
pub struct Document<'a> {
    lines: Vec<Line<'a>>,
    line_width: u32,
}

impl<'a> View for Document<'a> {
    type V = Layout;

    /// The lines of the document, and their width.
    closed spec fn view(&self) -> Layout {
        Layout {
            lines: Seq::new(self.lines@.len(), |i: int| self.lines@[i]@),
            line_width: self.line_width as nat,
        }
    }
}

impl<'a> Document<'a> {
    /// Every line is sound in itself, and the lines together are a layout.
    #[verifier::type_invariant]
    spec fn inv(&self) -> bool {
        &&& forall|i: int| 0 <= i < self.lines@.len() ==> (#[trigger] self.lines@[i]).wf()
        &&& is_layout(self@.lines, self.line_width as nat)
    }

    /// Places `word` behind the words of the document: on the last line if it
    /// fits there, else on a new line.
    fn add_word(&mut self, word: &'a str)
        requires
            is_word(word@),
            width(word@) <= old(self)@.line_width,
        ensures
            final(self)@.line_width == old(self)@.line_width,
            final(self)@.lines == place(old(self)@.lines, word@, old(self)@.line_width),
    {
        proof {
            use_type_invariant(&*self);
        }
        let ghost before = self@;
        // The lines leave the document while they change, so that the
        // document is a layout at every step.
        let mut lines: Vec<Line<'a>> = Vec::new();
        core::mem::swap(&mut lines, &mut self.lines);
        let line_count = lines.len();
        let create_new_line: bool = line_count == 0 || !lines[line_count - 1].word_fits(
            word,
            self.line_width,
        );
        if create_new_line {
            lines.push(Line::new_with_word(word));
        } else if let Some(line) = lines.last_mut() {
            line.add_word(word);
        }
        proof {
            let after = Seq::new(lines@.len(), |i: int| lines@[i]@);
            assert(after =~= place(before.lines, word@, before.line_width));
            lemma_place_is_layout(before.lines, word@, before.line_width);
        }
        self.lines = lines;
    }

    /// Lays out the words of `input` on lines of `line_width`.
    ///
    /// Fails where a word of `input` is wider than the line, and only there.
    /// A line of width zero takes no word: with it a text that holds a word
    /// fails, and a text without words gives a document without lines.
    pub fn from_str(input: &'a str, line_width: u32) -> (made: Result<Document<'a>, DocError>)
        ensures
            made is Ok <==> all_fit(words(input@), line_width as nat),
            made matches Ok(doc) ==> {
                &&& doc@.line_width == line_width
                &&& doc@.lines == pack(words(input@), line_width as nat)
                &&& doc@.lines.flatten() == words(input@)
                &&& is_layout(doc@.lines, line_width as nat)
            },
            made matches Err(error) ==> error == DocError::WordTooLong,
    {
        let mut doc: Document<'a> = Document { lines: Vec::new(), line_width };
        let mut rest = Words::new(input);
        let ghost mut seen: Seq<Seq<char>> = Seq::empty();
        proof {
            lemma_words_are_words(input@);
        }
        loop
            invariant
                words(input@) == seen + rest@,
                all_fit(seen, line_width as nat),
                doc@.line_width == line_width,
                doc@.lines == pack(seen, line_width as nat),
                forall|i: int|
                    0 <= i < words(input@).len() ==> is_word(#[trigger] words(input@)[i]),
            ensures
                seen == words(input@),
            decreases rest@.len(),
        {
            match rest.next_word() {
                Some(word) => {
                    assert(word@ == words(input@)[seen.len() as int]);
                    if width_of(word) > line_width as usize {
                        return Err(DocError::WordTooLong);
                    }
                    doc.add_word(word);
                    proof {
                        assert(seen.push(word@).drop_last() =~= seen);
                        seen = seen.push(word@);
                    }
                },
                None => {
                    break ;
                },
            }
        }
        proof {
            lemma_pack_is_layout(seen, line_width as nat);
        }
        Ok(doc)
    }

    /// Writes the document out: its lines, each padded to the full width,
    /// with a line feed between one line and the next.
    ///
    /// The text holds the words of the document, and nothing else but
    /// whitespace; unless the document is empty, every line of the text is
    /// exactly as wide as the document's lines are.
    pub fn format_to_string(&self) -> (text: String)
        ensures
            is_layout(self@.lines, self@.line_width),
            text@ == render(self@.lines, self@.line_width),
            words(text@) == self@.lines.flatten(),
            self@.lines.len() == 0 ==> text@.len() == 0,
            self@.lines.len() > 0 ==> is_justified(text@, self@.line_width),
    {
        proof {
            use_type_invariant(self);
        }
        let ghost lines = self@.lines;
        let ghost line_width = self@.line_width;
        let line_count = self.lines.len();
        let text_capacity = capacity_hint(line_count, self.line_width);
        let mut text: String = String::with_capacity(text_capacity);
        for line_number in 0..line_count
            invariant
                line_count == self.lines@.len() == lines.len(),
                line_width == self.line_width,
                forall|i: int|
                    0 <= i < line_count ==> (#[trigger] self.lines@[i]).wf() && self.lines@[i]@
                        == lines[i] && char_total(lines[i]) <= line_width,
                text@ == joined(lines, line_width, line_number as nat) + (if 0 < line_number
                    < line_count {
                    seq!['\n']
                } else {
                    Seq::<char>::empty()
                }),
        {
            let ghost before = text@;
            add_line(&mut text, &self.lines[line_number], self.line_width);
            assert(text@ == joined(lines, line_width, (line_number + 1) as nat)) by {
                assert(text@ == before + render_line(lines[line_number as int], line_width));
                if line_number == 0 {
                    assert(before =~= Seq::<char>::empty());
                }
            }
            if line_number < line_count - 1 {
                proof {
                    reveal_strlit("\n");
                    assert("\n"@ =~= seq!['\n']);
                }
                text.append("\n");
            }
        }
        proof {
            lemma_render_words(lines, line_width);
            lemma_render_lines(lines, line_width);
        }
        text
    }
}

/// Lays out the words of `input` on lines of `line_width` and writes them
/// out, every line padded to the full width.
///
/// Fails where a word of `input` is wider than the line, and only there; a
/// line of width zero takes no word at all. The text that comes out holds
/// the words of `input`, in their order, and nothing else but whitespace.
/// From an `input` without words it is empty; else every line of it is
/// exactly `line_width` wide.
pub fn transform(input: &str, line_width: u32) -> (made: Result<String, DocError>)
    ensures
        made is Ok <==> all_fit(words(input@), line_width as nat),
        made matches Ok(text) ==> {
            &&& text@ == render(pack(words(input@), line_width as nat), line_width as nat)
            &&& words(text@) == words(input@)
            &&& words(input@).len() == 0 ==> text@.len() == 0
            &&& words(input@).len() > 0 ==> is_justified(text@, line_width as nat)
        },
        made matches Err(error) ==> error == DocError::WordTooLong,
{
    match Document::from_str(input, line_width) {
        Ok(document) => Ok(document.format_to_string()),
        Err(error) => Err(error),
    }
}

/// A text without words, be it empty or all whitespace, is laid out on
/// lines of any width without fail, and as the empty text.
pub proof fn lemma_wordless_text(text: Seq<char>, line_width: nat)
    requires
        is_blank(text),
    ensures
        words(text).len() == 0,
        all_fit(words(text), line_width),
        render(pack(words(text), line_width), line_width).len() == 0,
{
    lemma_words_none(text);
}

/// Appends `line` to `text` as it stands on a line of `line_width`: several
/// words spread over the whole width, a single word with blanks behind it.
///
/// Words that leave less room than they have gaps are written with what
/// room there is; where they leave none, one word stands against the next.
fn add_line(text: &mut String, line: &Line<'_>, line_width: u32)
    requires
        line.wf(),
        char_total(line@) <= line_width,
    ensures
        final(text)@ == old(text)@ + render_line(line@, line_width as nat),
{
    let ghost words = line@;
    let ghost width = line_width as nat;
    proof {
        line.lemma_wf();
    }
    if line.word_count() > 1 {
        let (base_whitespace_width, extra_whitespace, gap_count): (u32, u32, u32) = {
            let whitespace_count: u32 = line_width - line.char_count();
            let gap_count: u32 = line.word_count() - 1;
            (whitespace_count / gap_count, whitespace_count % gap_count, gap_count)
        };
        let mut word_number: u32 = 0;
        assert(extra_whitespace > 0 ==> base_whitespace_width < u32::MAX) by (nonlinear_arith)
            requires
                base_whitespace_width == (width - char_total(words)) / (gap_count as int),
                extra_whitespace == (width - char_total(words)) % (gap_count as int),
                0 <= width - char_total(words) <= u32::MAX,
                gap_count > 0,
        ;
        for word in words_left: line.iter()
            invariant
                words_left.seq().len() == words.len() <= u32::MAX,
                forall|j: int|
                    0 <= j < words.len() ==> (#[trigger] words_left.seq()[j])@ == words[j],
                word_number == words_left.index(),
                gap_count == words.len() - 1 > 0,
                char_total(words) <= width == line_width,
                base_whitespace_width == (width - char_total(words)) / (gap_count as int),
                extra_whitespace == (width - char_total(words)) % (gap_count as int),
                extra_whitespace > 0 ==> base_whitespace_width < u32::MAX,
                text@ == old(text)@ + spread(words, width, word_number as nat),
        {
            text.append(*word);
            if word_number < gap_count {
                let whitespaces: u32 = if word_number < extra_whitespace {
                    base_whitespace_width + 1
                } else {
                    base_whitespace_width
                };
                add_whitespaces(text, whitespaces);
            }
            word_number = word_number + 1;
        }
    } else {
        let whitespaces: u32 = line_width - line.char_count();
        for word in words_left: line.iter()
            invariant
                words_left.seq().len() == words.len() == 1,
                forall|j: int|
                    0 <= j < words.len() ==> (#[trigger] words_left.seq()[j])@ == words[j],
                text@ == old(text)@ + (if words_left.index() == 0 {
                    Seq::<char>::empty()
                } else {
                    words[0]
                }),
        {
            text.append(*word);
        }
        add_whitespaces(text, whitespaces);
    }
}

/// Appends `count` blanks to `text`.
fn add_whitespaces(text: &mut String, count: u32)
    ensures
        final(text)@ == old(text)@ + blanks(count as nat),
{
    for added in 0..count
        invariant
            text@ == old(text)@ + blanks(added as nat),
    {
        proof {
            reveal_strlit(" ");
        }
        text.append(" ");
    }
}

/// The room to set aside for a text of `line_count` lines of `line_width`
/// with a line feed between them: twice the width for each line, so that
/// characters of two code units find their place too. Where no string can
/// be that long, no room is set aside.
pub open spec fn capacity_for(line_count: nat, line_width: nat) -> nat {
    let room = 2 * (line_count * line_width) + line_count - 1;
    if 0 < line_count && room <= isize::MAX {
        room as nat
    } else {
        0
    }
}

/// The room to set aside for a text of `line_count` lines of `line_width`.
fn capacity_hint(line_count: usize, line_width: u32) -> (hint: usize)
    ensures
        hint == capacity_for(line_count as nat, line_width as nat),
        hint <= isize::MAX,
{
    if line_count == 0 {
        return 0;
    }
    let room = match line_count.checked_mul(line_width as usize) {
        Some(lines) => match lines.checked_mul(2) {
            Some(doubled) => doubled.checked_add(line_count - 1),
            None => None,
        },
        None => None,
    };
    match room {
        Some(room) => if room <= isize::MAX as usize {
            room
        } else {
            0
        },
        None => 0,
    }
}

/// What is taken on trust of `String::with_capacity` from the standard
/// library: it gives an empty string, whatever room it sets aside for it.
/// Capacities beyond `isize::MAX` are left out, as no allocation can be that
/// large.
pub assume_specification[ String::with_capacity ](capacity: usize) -> (text: String)
    requires
        capacity <= isize::MAX,
    ensures
        text@ == Seq::<char>::empty(),
;

} // verus!
