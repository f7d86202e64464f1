//! How a layout is written out: every line padded to the full width.

use crate::packing::{char_total, is_layout, is_line, lemma_char_total_push};
use crate::units::{lemma_width_concat, width};
use crate::words::{is_blank, lemma_words_concat, lemma_words_first, lemma_words_none, words};
use vstd::arithmetic::div_mod::lemma_fundamental_div_mod;
use vstd::prelude::*;
use vstd::set_lib::{lemma_int_range, set_int_range};
use vstd::utf8::is_ascii_chars_encode_utf8;

verus! {

/// A run of `n` blanks.
pub open spec fn blanks(n: nat) -> Seq<char> {
    Seq::new(n, |i: int| ' ')
}

/// The width of the gap behind word `i` of `line`, on a line of `line_width`.
///
/// The room that the words leave is shared out evenly among the gaps between
/// them; what remains after that goes, one blank each, to the leftmost gaps.
pub open spec fn gap(line: Seq<Seq<char>>, line_width: nat, i: int) -> nat
    recommends
        line.len() > 1,
        char_total(line) <= line_width,
        0 <= i < line.len() - 1,
{
    let room = (line_width - char_total(line)) as nat;
    let gaps = (line.len() - 1) as nat;
    if i < room % gaps {
        room / gaps + 1
    } else {
        room / gaps
    }
}

/// The first `n` words of `line` as they stand on a line of `line_width`:
/// each of them but the last word of the line with its gap behind it.
pub open spec fn spread(line: Seq<Seq<char>>, line_width: nat, n: nat) -> Seq<char>
    recommends
        n <= line.len(),
    decreases n,
{
    if n == 0 {
        Seq::empty()
    } else {
        let i = n - 1;
        let gap_behind = if i < line.len() - 1 {
            blanks(gap(line, line_width, i))
        } else {
            Seq::empty()
        };
        spread(line, line_width, i as nat) + line[i] + gap_behind
    }
}

/// `line` as it stands on a line of `line_width`: several words spread over
/// the whole width, a single word at the left with blanks up to the width.
pub open spec fn render_line(line: Seq<Seq<char>>, line_width: nat) -> Seq<char> {
    if line.len() > 1 {
        spread(line, line_width, line.len())
    } else {
        let word = if line.len() == 1 {
            line[0]
        } else {
            Seq::empty()
        };
        word + blanks((line_width - char_total(line)) as nat)
    }
}

/// The first `n` lines of `lines` as they stand on lines of `line_width`,
/// with a line feed between one line and the next.
pub open spec fn joined(lines: Seq<Seq<Seq<char>>>, line_width: nat, n: nat) -> Seq<char>
    recommends
        n <= lines.len(),
    decreases n,
{
    if n == 0 {
        Seq::empty()
    } else if n == 1 {
        render_line(lines[0], line_width)
    } else {
        joined(lines, line_width, (n - 1) as nat) + seq!['\n'] + render_line(
            lines[n - 1],
            line_width,
        )
    }
}

/// The layout `lines` written out on lines of `line_width`.
pub open spec fn render(lines: Seq<Seq<Seq<char>>>, line_width: nat) -> Seq<char> {
    joined(lines, line_width, lines.len())
}

/// The width of the first `n` gaps of `line` together, on a line of `line_width`.
pub open spec fn gap_total(line: Seq<Seq<char>>, line_width: nat, n: nat) -> nat
    recommends
        n < line.len(),
    decreases n,
{
    if n == 0 {
        0
    } else {
        gap_total(line, line_width, (n - 1) as nat) + gap(line, line_width, n - 1)
    }
}

/// Whether `text` holds no line feed.
pub open spec fn is_one_line(text: Seq<char>) -> bool {
    forall|i: int| 0 <= i < text.len() ==> #[trigger] text[i] != '\n'
}

/// The number of characters of `text` before its first line feed.
pub open spec fn line_len(text: Seq<char>) -> nat
    decreases text.len(),
{
    if text.len() == 0 || text[0] == '\n' {
        0
    } else {
        1 + line_len(text.drop_first())
    }
}

/// The lines of `text`: what stands before its first line feed, between one
/// line feed and the next, and behind the last. A text without a line feed
/// is one line.
pub open spec fn text_lines(text: Seq<char>) -> Seq<Seq<char>>
    decreases text.len(),
{
    let n = line_len(text) as int;
    if n >= text.len() {
        seq![text]
    } else {
        seq![text.take(n)] + text_lines(text.skip(n + 1))
    }
}

/// Whether every line of `text` is exactly `line_width` wide.
pub open spec fn is_justified(text: Seq<char>, line_width: nat) -> bool {
    forall|i: int|
        0 <= i < text_lines(text).len() ==> width(#[trigger] text_lines(text)[i]) == line_width
}

/// Blanks are whitespace, take one code unit each, and hold no line feed.
pub proof fn lemma_blanks(n: nat)
    ensures
        is_blank(blanks(n)),
        is_one_line(blanks(n)),
        width(blanks(n)) == n,
{
    is_ascii_chars_encode_utf8(blanks(n));
}

/// On a line of several words the even share of the room is at least one
/// blank for each gap, and fewer blanks remain than there are gaps.
pub proof fn lemma_gaps_fit(line: Seq<Seq<char>>, line_width: nat)
    requires
        is_line(line, line_width),
        line.len() > 1,
    ensures
        1 <= (line_width - char_total(line)) / (line.len() - 1) <= line_width - char_total(line),
        0 <= (line_width - char_total(line)) % (line.len() - 1) < line.len() - 1,
{
    let room = line_width - char_total(line);
    let gaps = line.len() - 1;
    assert(1 <= room / gaps <= room && 0 <= room % gaps < gaps) by (nonlinear_arith)
        requires
            0 < gaps <= room,
    ;
}

/// The first `n` gaps of a line are together `n` times the even share wide,
/// and one blank more for each of them that is among the leftmost.
pub proof fn lemma_gap_total(line: Seq<Seq<char>>, line_width: nat, n: nat)
    requires
        is_line(line, line_width),
        line.len() > 1,
        n <= line.len() - 1,
    ensures
        ({
            let room = line_width - char_total(line);
            let gaps = line.len() - 1;
            gap_total(line, line_width, n) == n * (room / gaps) + if n < room % gaps {
                n as int
            } else {
                room % gaps
            }
        }),
    decreases n,
{
    let room = line_width - char_total(line);
    let gaps = line.len() - 1;
    let base = room / gaps;
    if n > 0 {
        lemma_gap_total(line, line_width, (n - 1) as nat);
        assert(n * base == (n - 1) * base + base) by (nonlinear_arith);
    } else {
        assert(0 * base == 0) by (nonlinear_arith);
    }
}

/// The gaps of a line of several words.
///
/// With `room` for what the words leave free of the line and `gaps` for the
/// number of gaps: every gap is `room / gaps` or one more wide, and at least
/// one; the wider gaps are the `room % gaps` leftmost; and all gaps together
/// take up the room exactly.
pub proof fn lemma_gap_distribution(line: Seq<Seq<char>>, line_width: nat)
    requires
        is_line(line, line_width),
        line.len() > 1,
    ensures
        ({
            let room = line_width - char_total(line);
            let gaps = line.len() - 1;
            let wide = Set::new(
                |i: int| 0 <= i < gaps && gap(line, line_width, i) == room / gaps + 1,
            );
            let narrow = Set::new(
                |i: int| 0 <= i < gaps && gap(line, line_width, i) == room / gaps,
            );
            &&& room / gaps >= 1
            &&& forall|i: int| 0 <= i < room % gaps ==> gap(line, line_width, i) == room / gaps + 1
            &&& forall|i: int| room % gaps <= i < gaps ==> gap(line, line_width, i) == room / gaps
            &&& wide.finite() && wide.len() == room % gaps
            &&& narrow.finite() && narrow.len() == gaps - room % gaps
            &&& gap_total(line, line_width, gaps as nat) == room
        }),
{
    let room = line_width - char_total(line);
    let gaps = line.len() - 1;
    let extra = room % gaps;
    let wide = Set::new(|i: int| 0 <= i < gaps && gap(line, line_width, i) == room / gaps + 1);
    let narrow = Set::new(|i: int| 0 <= i < gaps && gap(line, line_width, i) == room / gaps);
    assert(wide =~= set_int_range(0, extra));
    assert(narrow =~= set_int_range(extra, gaps));
    lemma_int_range(0, extra);
    lemma_int_range(extra, gaps);
    lemma_gap_total(line, line_width, gaps as nat);
    lemma_fundamental_div_mod(room, gaps);
    assert(gaps * (room / gaps) == (room / gaps) * gaps) by (nonlinear_arith);
}

/// The first words of a line of several words, as they stand on the line,
/// hold just these words, no line feed, and the words' and the gaps' width.
pub proof fn lemma_spread(line: Seq<Seq<char>>, line_width: nat, n: nat)
    requires
        is_line(line, line_width),
        line.len() > 1,
        n <= line.len(),
    ensures
        words(spread(line, line_width, n)) == line.take(n as int),
        is_one_line(spread(line, line_width, n)),
        width(spread(line, line_width, n)) == char_total(line.take(n as int)) + gap_total(
            line,
            line_width,
            if n < line.len() {
                n
            } else {
                (line.len() - 1) as nat
            },
        ),
        0 < n < line.len() ==> spread(line, line_width, n).len() > 0 && spread(
            line,
            line_width,
            n,
        ).last() == ' ',
    decreases n,
{
    if n > 0 {
        let i = n - 1;
        let before = spread(line, line_width, i as nat);
        let word = line[i];
        let behind = if i < line.len() - 1 {
            blanks(gap(line, line_width, i))
        } else {
            Seq::empty()
        };
        lemma_spread(line, line_width, i as nat);
        lemma_gaps_fit(line, line_width);
        lemma_blanks(gap(line, line_width, i));
        assert(line.take(n as int) =~= line.take(i).push(word));
        // the words
        lemma_words_first(word, Seq::empty());
        lemma_words_concat(before, word);
        lemma_words_none(behind);
        lemma_words_concat(before + word, behind);
        // the width
        lemma_width_concat(before, word);
        lemma_width_concat(before + word, behind);
        lemma_char_total_push(line.take(i), word);
    }
}

/// A line of a layout, as it stands on lines of the layout's width, holds
/// just its words, no line feed, and is exactly as wide as the lines are.
pub proof fn lemma_render_line(line: Seq<Seq<char>>, line_width: nat)
    requires
        is_line(line, line_width),
    ensures
        words(render_line(line, line_width)) == line,
        is_one_line(render_line(line, line_width)),
        width(render_line(line, line_width)) == line_width,
{
    if line.len() > 1 {
        lemma_spread(line, line_width, line.len());
        lemma_gap_distribution(line, line_width);
    } else {
        let word = line[0];
        let behind = blanks((line_width - char_total(line)) as nat);
        assert(line =~= Seq::<Seq<char>>::empty().push(word));
        lemma_char_total_push(Seq::empty(), word);
        lemma_blanks((line_width - char_total(line)) as nat);
        lemma_words_first(word, Seq::empty());
        lemma_words_none(behind);
        lemma_words_concat(word, behind);
        lemma_width_concat(word, behind);
    }
}

/// A text that holds no line feed, with nothing or a line feed behind it, is
/// counted whole as the first line.
pub proof fn lemma_line_len(line: Seq<char>, rest: Seq<char>)
    requires
        is_one_line(line),
        rest.len() == 0 || rest[0] == '\n',
    ensures
        line_len(line + rest) == line.len(),
    decreases line.len(),
{
    if line.len() > 0 {
        assert((line + rest).drop_first() =~= line.drop_first() + rest);
        lemma_line_len(line.drop_first(), rest);
    }
}

/// The first lines of a layout, written out, are the first line and, behind
/// a line feed, the others written out.
pub proof fn lemma_joined_first(lines: Seq<Seq<Seq<char>>>, line_width: nat, n: nat)
    requires
        1 <= n <= lines.len(),
    ensures
        joined(lines, line_width, n) == render_line(lines[0], line_width) + if n == 1 {
            Seq::<char>::empty()
        } else {
            seq!['\n'] + joined(lines.drop_first(), line_width, (n - 1) as nat)
        },
    decreases n,
{
    if n > 1 {
        lemma_joined_first(lines, line_width, (n - 1) as nat);
        assert(lines.drop_first()[n - 2] == lines[n - 1]);
    }
}

/// The lines of the text that a layout is written out to are the lines of
/// the layout, each as it stands on a line.
pub proof fn lemma_joined_lines(lines: Seq<Seq<Seq<char>>>, line_width: nat, n: nat)
    requires
        forall|i: int| 0 <= i < lines.len() ==> is_line(#[trigger] lines[i], line_width),
        1 <= n <= lines.len(),
    ensures
        text_lines(joined(lines, line_width, n)) == Seq::new(
            n,
            |i: int| render_line(lines[i], line_width),
        ),
    decreases n,
{
    let text = joined(lines, line_width, n);
    let first = render_line(lines[0], line_width);
    let others = lines.drop_first();
    lemma_joined_first(lines, line_width, n);
    lemma_render_line(lines[0], line_width);
    if n == 1 {
        lemma_line_len(first, Seq::empty());
    } else {
        let rest = joined(others, line_width, (n - 1) as nat);
        lemma_line_len(first, seq!['\n'] + rest);
        assert(text.take(first.len() as int) =~= first);
        assert(text.skip(first.len() as int + 1) =~= rest);
        lemma_joined_lines(others, line_width, (n - 1) as nat);
    }
}

/// The words of the text that the first lines of a layout are written out
/// to are the words of these lines.
pub proof fn lemma_joined_words(lines: Seq<Seq<Seq<char>>>, line_width: nat, n: nat)
    requires
        forall|i: int| 0 <= i < lines.len() ==> is_line(#[trigger] lines[i], line_width),
        n <= lines.len(),
    ensures
        words(joined(lines, line_width, n)) == lines.take(n as int).flatten(),
    decreases n,
{
    broadcast use Seq::lemma_flatten_push;

    if n > 0 {
        let last = render_line(lines[n - 1], line_width);
        lemma_render_line(lines[n - 1], line_width);
        assert(lines.take(n as int) =~= lines.take(n - 1).push(lines[n - 1]));
        if n > 1 {
            let before = joined(lines, line_width, (n - 1) as nat);
            lemma_joined_words(lines, line_width, (n - 1) as nat);
            lemma_words_none(seq!['\n']);
            lemma_words_concat(before, seq!['\n']);
            lemma_words_concat(before + seq!['\n'], last);
        }
    }
}

/// The text that a layout is written out to holds the words of the layout,
/// in their order, and no others.
pub proof fn lemma_render_words(lines: Seq<Seq<Seq<char>>>, line_width: nat)
    requires
        is_layout(lines, line_width),
    ensures
        words(render(lines, line_width)) == lines.flatten(),
{
    lemma_joined_words(lines, line_width, lines.len());
    assert(lines.take(lines.len() as int) =~= lines);
}

/// The text that a layout is written out to has one line for each line of
/// the layout, and each of them is exactly as wide as the layout's lines
/// are. A layout without lines is written out to the empty text.
pub proof fn lemma_render_lines(lines: Seq<Seq<Seq<char>>>, line_width: nat)
    requires
        is_layout(lines, line_width),
    ensures
        lines.len() == 0 ==> render(lines, line_width).len() == 0,
        lines.len() > 0 ==> is_justified(render(lines, line_width), line_width),
        lines.len() > 0 ==> text_lines(render(lines, line_width)).len() == lines.len(),
        lines.len() > 0 ==> forall|i: int|
            0 <= i < lines.len() ==> #[trigger] text_lines(render(lines, line_width))[i]
                == render_line(lines[i], line_width) && width(
                text_lines(render(lines, line_width))[i],
            ) == line_width,
{
    if lines.len() > 0 {
        lemma_joined_lines(lines, line_width, lines.len());
        assert forall|i: int| 0 <= i < lines.len() implies #[trigger] text_lines(
            render(lines, line_width),
        )[i] == render_line(lines[i], line_width) && width(
            text_lines(render(lines, line_width))[i],
        ) == line_width by {
            lemma_render_line(lines[i], line_width);
        }
    }
}

} // verus!
