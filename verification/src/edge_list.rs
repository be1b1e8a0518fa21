//! Graphs as text: one edge on a line, as two decimal numbers with white space between
//! them; a line that begins with `#` is a comment.

use vstd::prelude::*;
use crate::graph_iterator::{EdgeAction, EdgeMapper, run, runs, lemma_run_next, lemma_run_ends};

verus! {

/// Whether `byte` is white space: a blank, a tab, a line feed, a vertical tab, a form
/// feed or a carriage return.
pub open spec fn is_space(byte: u8) -> bool {
    byte == 32 || (9 <= byte && byte <= 13)
}

/// Whether `byte` is a decimal digit.
pub open spec fn is_digit(byte: u8) -> bool {
    48 <= byte && byte <= 57
}

/// The first place from `from` on at which `line` has a byte that is not white space,
/// or the end of the line.
pub open spec fn spaces_end(line: Seq<u8>, from: int) -> int
    decreases line.len() - from,
{
    if 0 <= from < line.len() && is_space(line[from]) {
        spaces_end(line, from + 1)
    } else {
        from
    }
}

/// The first place from `from` on at which `line` has white space, or the end of the
/// line.
pub open spec fn word_end(line: Seq<u8>, from: int) -> int
    decreases line.len() - from,
{
    if 0 <= from < line.len() && !is_space(line[from]) {
        word_end(line, from + 1)
    } else {
        from
    }
}

/// The number that the decimal digits `digits` write.
pub open spec fn digits_value(digits: Seq<u8>) -> nat
    decreases digits.len(),
{
    if digits.len() == 0 {
        0
    } else {
        digits_value(digits.drop_last()) * 10 + (digits.last() - 48) as nat
    }
}

/// Whether `word` is made of decimal digits.
pub open spec fn all_digits(word: Seq<u8>) -> bool {
    forall|i: int| 0 <= i < word.len() ==> is_digit(#[trigger] word[i])
}

/// The `u32` that `word` writes: one or more decimal digits, with or without a `+`
/// before them, whose number fits.
pub open spec fn number(word: Seq<u8>) -> Option<u32> {
    let digits = if word.len() > 0 && word[0] == 43 {
        word.skip(1)
    } else {
        word
    };
    if digits.len() > 0 && all_digits(digits) && digits_value(digits) <= u32::MAX {
        Some(digits_value(digits) as u32)
    } else {
        None
    }
}

/// The edge that `line` writes: its first two words, as numbers. What follows them on
/// the line is not read.
pub open spec fn line_edge(line: Seq<u8>) -> Option<(u32, u32)> {
    let a = spaces_end(line, 0);
    let b = word_end(line, a);
    let c = spaces_end(line, b);
    let d = word_end(line, c);
    match (number(line.subrange(a, b)), number(line.subrange(c, d))) {
        (Some(src), Some(dst)) => Some((src, dst)),
        _ => None,
    }
}

/// The place of the first line feed of `text` from `from` on, or the end of the text.
pub open spec fn line_end(text: Seq<u8>, from: int) -> int
    decreases text.len() - from,
{
    if 0 <= from < text.len() && text[from] != 10 {
        line_end(text, from + 1)
    } else {
        from
    }
}

/// The edges that the lines of `text` write, or `None` where a line that is not a
/// comment does not write an edge.
pub open spec fn text_edges(text: Seq<u8>) -> Option<Seq<(u32, u32)>>
    decreases text.len(),
{
    if text.len() == 0 {
        Some(Seq::empty())
    } else {
        let end = line_end(text, 0);
        if 0 <= end < text.len() {
            following(line_edges(text.take(end)), text_edges(text.skip(end + 1)))
        } else {
            line_edges(text)
        }
    }
}

/// The edges that the line `line` writes: none if it is a comment, else one, or `None`
/// where it does not write an edge.
pub open spec fn line_edges(line: Seq<u8>) -> Option<Seq<(u32, u32)>> {
    if line.len() > 0 && line[0] == 35 {
        Some(Seq::empty())
    } else {
        match line_edge(line) {
            Some(edge) => Some(seq![edge]),
            None => None,
        }
    }
}

/// The edges `first` followed by the edges `rest`, where there are both.
pub open spec fn following(first: Option<Seq<(u32, u32)>>, rest: Option<Seq<(u32, u32)>>) -> Option<
    Seq<(u32, u32)>,
> {
    match (first, rest) {
        (Some(a), Some(b)) => Some(a + b),
        _ => None,
    }
}

/// Where searches for the end of a run end.
proof fn lemma_ends(line: Seq<u8>, from: int)
    requires
        0 <= from <= line.len(),
    ensures
        from <= spaces_end(line, from) <= line.len(),
        from <= word_end(line, from) <= line.len(),
        from <= line_end(line, from) <= line.len(),
    decreases line.len() - from,
{
    if from < line.len() {
        lemma_ends(line, from + 1);
    }
}

/// More digits write no smaller a number.
proof fn lemma_digits_grow(digits: Seq<u8>, n: int)
    requires
        all_digits(digits),
        0 <= n <= digits.len(),
    ensures
        digits_value(digits.take(n)) <= digits_value(digits),
    decreases digits.len() - n,
{
    if n < digits.len() {
        lemma_digits_grow(digits, n + 1);
        assert(digits.take(n + 1).drop_last() =~= digits.take(n));
        assert(digits.take(n + 1).last() == digits[n]);
    } else {
        assert(digits.take(n) =~= digits);
    }
}

/// The place at which the white space of `text` from `from` on ends before `end`.
fn skip_spaces(text: &[u8], from: usize, end: usize) -> (out: usize)
    requires
        from <= end <= text@.len(),
    ensures
        out == from + spaces_end(text@.subrange(from as int, end as int), 0),
        from <= out <= end,
{
    let ghost line = text@.subrange(from as int, end as int);
    let mut i: usize = from;
    proof {
        lemma_ends(line, 0);
    }
    while i < end && (text[i] == 32 || (9 <= text[i] && text[i] <= 13))
        invariant
            from <= i <= end <= text@.len(),
            line == text@.subrange(from as int, end as int),
            spaces_end(line, 0) == spaces_end(line, i - from),
        decreases end - i,
    {
        i += 1;
    }
    proof {
        lemma_ends(line, i - from);
    }
    i
}

/// The place at which the word of `text` from `from` on ends before `end`.
fn skip_word(text: &[u8], from: usize, end: usize) -> (out: usize)
    requires
        from <= end <= text@.len(),
    ensures
        out == from + word_end(text@.subrange(from as int, end as int), 0),
        from <= out <= end,
{
    let ghost line = text@.subrange(from as int, end as int);
    let mut i: usize = from;
    while i < end && !(text[i] == 32 || (9 <= text[i] && text[i] <= 13))
        invariant
            from <= i <= end <= text@.len(),
            line == text@.subrange(from as int, end as int),
            word_end(line, 0) == word_end(line, i - from),
        decreases end - i,
    {
        i += 1;
    }
    i
}

/// The `u32` that the bytes of `text` from `from` up to `end` write.
fn parse_number(text: &[u8], from: usize, end: usize) -> (out: Option<u32>)
    requires
        from <= end <= text@.len(),
    ensures
        out == number(text@.subrange(from as int, end as int)),
{
    let ghost word = text@.subrange(from as int, end as int);
    let start: usize = if from < end && text[from] == 43 {
        from + 1
    } else {
        from
    };
    let ghost digits = text@.subrange(start as int, end as int);
    proof {
        if word.len() > 0 && word[0] == 43 {
            assert(digits =~= word.skip(1));
        } else {
            assert(digits =~= word);
        }
    }
    if start == end {
        return None;
    }
    let mut value: u64 = 0;
    let mut i: usize = start;
    assert(digits.take(0) =~= Seq::<u8>::empty());
    while i < end
        invariant
            start <= i <= end <= text@.len(),
            digits == text@.subrange(start as int, end as int),
            digits.len() > 0,
            number(text@.subrange(from as int, end as int)) == (if all_digits(digits) && digits_value(digits)
                <= u32::MAX {
                Some(digits_value(digits) as u32)
            } else {
                None
            }),
            all_digits(digits.take(i - start)),
            value == digits_value(digits.take(i - start)),
            value <= u32::MAX,
        decreases end - i,
    {
        let byte: u8 = text[i];
        if !(48 <= byte && byte <= 57) {
            assert(!is_digit(digits[i - start]));
            assert(!all_digits(digits));
            return None;
        }
        proof {
            assert(digits.take(i - start + 1).drop_last() =~= digits.take(i - start));
            assert(digits.take(i - start + 1).last() == byte);
            assert forall|k: int| 0 <= k < i - start + 1 implies is_digit(#[trigger] digits.take(i - start + 1)[k]) by {
                if k < i - start {
                    assert(digits.take(i - start)[k] == digits.take(i - start + 1)[k]);
                }
            }
        }
        value = value * 10 + (byte - 48) as u64;
        if value > 0xFFFF_FFFF {
            proof {
                if all_digits(digits) {
                    lemma_digits_grow(digits, i - start + 1);
                }
                assert(!(all_digits(digits) && digits_value(digits) <= u32::MAX));
            }
            return None;
        }
        i += 1;
    }
    assert(digits.take(i - start) =~= digits);
    Some(value as u32)
}

/// The edge that the line of `text` from `from` up to `end` writes.
pub fn parse_line(text: &[u8], from: usize, end: usize) -> (out: Option<(u32, u32)>)
    requires
        from <= end <= text@.len(),
    ensures
        out == line_edge(text@.subrange(from as int, end as int)),
{
    let ghost line = text@.subrange(from as int, end as int);
    let a = skip_spaces(text, from, end);
    let b = skip_word(text, a, end);
    let c = skip_spaces(text, b, end);
    let d = skip_word(text, c, end);
    proof {
        lemma_tail(line, a - from, 0);
        lemma_tail(line, b - from, 0);
        lemma_tail(line, c - from, 0);
        assert(text@.subrange(a as int, end as int) =~= line.skip(a - from));
        assert(text@.subrange(b as int, end as int) =~= line.skip(b - from));
        assert(text@.subrange(c as int, end as int) =~= line.skip(c - from));
        assert(text@.subrange(a as int, b as int) =~= line.subrange(a - from, b - from));
        assert(text@.subrange(c as int, d as int) =~= line.subrange(c - from, d - from));
    }
    match (parse_number(text, a, b), parse_number(text, c, d)) {
        (Some(src), Some(dst)) => Some((src, dst)),
        _ => None,
    }
}

/// A search in the rest of a line ends where the search in the line ends.
proof fn lemma_tail(line: Seq<u8>, cut: int, from: int)
    requires
        0 <= cut <= line.len(),
        0 <= from <= line.len() - cut,
    ensures
        spaces_end(line.skip(cut), from) + cut == spaces_end(line, from + cut),
        word_end(line.skip(cut), from) + cut == word_end(line, from + cut),
        line_end(line.skip(cut), from) + cut == line_end(line, from + cut),
    decreases line.len() - cut - from,
{
    if from < line.len() - cut {
        lemma_tail(line, cut, from + 1);
        assert(line.skip(cut)[from] == line[from + cut]);
    }
}

/// The place of the first line feed of `text` from `from` on, or the end of the text.
fn find_line_end(text: &[u8], from: usize) -> (out: usize)
    requires
        from <= text@.len(),
    ensures
        out == from + line_end(text@.skip(from as int), 0),
        from <= out <= text@.len(),
{
    let mut i: usize = from;
    proof {
        lemma_tail(text@, from as int, 0);
    }
    while i < text.len() && text[i] != 10
        invariant
            from <= i <= text@.len(),
            line_end(text@, from as int) == line_end(text@, i as int),
        decreases text@.len() - i,
    {
        i += 1;
    }
    i
}

/// The edges that the line of `text` from `from` up to `end` writes.
fn parse_line_edges(text: &[u8], from: usize, end: usize) -> (out: Option<Option<(u32, u32)>>)
    requires
        from <= end <= text@.len(),
    ensures
        match out {
            None => line_edges(text@.subrange(from as int, end as int)) is None,
            Some(None) => line_edges(text@.subrange(from as int, end as int)) == Some(Seq::<(u32, u32)>::empty()),
            Some(Some(edge)) => line_edges(text@.subrange(from as int, end as int)) == Some(seq![edge]),
        },
{
    proof {
        if from < end {
            assert(text@.subrange(from as int, end as int)[0] == text@[from as int]);
        }
    }
    if from < end && text[from] == 35 {
        Some(None)
    } else {
        match parse_line(text, from, end) {
            Some(edge) => Some(Some(edge)),
            None => None,
        }
    }
}

/// The lines of `text` from `from` on are the line that ends at `end` and those behind
/// it.
proof fn lemma_lines(text: Seq<u8>, from: int, end: int)
    requires
        0 <= from < text.len(),
        end == from + line_end(text.skip(from), 0),
        from <= end <= text.len(),
    ensures
        text_edges(text.skip(from)) == following(
            line_edges(text.subrange(from, end)),
            text_edges(text.skip(if end == text.len() { end } else { end + 1 })),
        ),
{
    let rest = text.skip(from);
    let n = end - from;
    assert(rest.take(n) =~= text.subrange(from, end));
    if end < text.len() {
        assert(rest.skip(n + 1) =~= text.skip(end + 1));
    } else {
        assert(rest =~= text.subrange(from, end));
        assert(text.skip(end).len() == 0);
        match line_edges(rest) {
            Some(edges) => {
                assert(edges + Seq::<(u32, u32)>::empty() =~= edges);
            },
            None => {},
        }
    }
}

/// A text writes no more edges than it has bytes.
pub proof fn lemma_text_len(text: Seq<u8>)
    requires
        text_edges(text) is Some,
    ensures
        text_edges(text).unwrap().len() <= text.len(),
    decreases text.len(),
{
    if text.len() > 0 {
        let end = line_end(text, 0);
        if 0 <= end < text.len() {
            lemma_text_len(text.skip(end + 1));
        }
    }
}

/// Whether every line of `text` that is not a comment writes an edge.
pub fn is_edge_list(text: &[u8]) -> (ok: bool)
    ensures
        ok == (text_edges(text@) is Some),
{
    let mut from: usize = 0;
    let mut ok: bool = true;
    assert(text@.skip(0) =~= text@);
    while ok && from < text.len()
        invariant
            from <= text@.len(),
            ok ==> (text_edges(text@) is Some) == (text_edges(text@.skip(from as int)) is Some),
            !ok ==> text_edges(text@) is None,
        decreases text@.len() - from, (if ok { 1nat } else { 0nat }),
    {
        let end = find_line_end(text, from);
        proof {
            lemma_lines(text@, from as int, end as int);
        }
        if parse_line_edges(text, from, end).is_none() {
            ok = false;
        } else {
            from = if end == text.len() {
                end
            } else {
                end + 1
            };
        }
    }
    ok
}

/// A graph as text.
pub struct ReaderMapper<'a> {
    reader: &'a [u8],
}

impl<'a> ReaderMapper<'a> {
    #[verifier::type_invariant]
    spec fn well_formed(&self) -> bool {
        text_edges(self.reader@) is Some
    }

    /// The graph whose edges the lines of `reader` write.
    pub fn new(reader: &'a [u8]) -> (out: ReaderMapper<'a>)
        requires
            text_edges(reader@) is Some,
        ensures
            out.edges() == text_edges(reader@).unwrap(),
            out.edges().len() <= reader@.len(),
    {
        proof {
            lemma_text_len(reader@);
        }
        ReaderMapper { reader: reader }
    }
}

impl<'a> EdgeMapper for ReaderMapper<'a> {
    closed spec fn edges(&self) -> Seq<(u32, u32)> {
        text_edges(self.reader@).unwrap()
    }

    fn map_edges<A: EdgeAction>(&self, action: &mut A) {
        proof {
            use_type_invariant(self);
        }
        let ghost init = action.state();
        let ghost all = self.edges();
        let ghost text = self.reader@;
        let ghost done: int = 0;
        proof {
            lemma_run_ends::<A>(init, all);
            assert(all.skip(0) =~= all);
            assert(text.skip(0) =~= text);
        }
        let mut from: usize = 0;
        while from < self.reader.len()
            invariant
                text == self.reader@,
                from <= text.len(),
                0 <= done <= all.len(),
                text_edges(text.skip(from as int)) == Some(all.skip(done)),
                runs::<A>(init, all),
                action.state() == run::<A>(init, all.take(done)),
            decreases text.len() - from,
        {
            let end = find_line_end(self.reader, from);
            let next: usize = if end == self.reader.len() {
                end
            } else {
                end + 1
            };
            proof {
                lemma_lines(text, from as int, end as int);
            }
            if let Some(Some((src, dst))) = parse_line_edges(self.reader, from, end) {
                proof {
                    let others = text_edges(text.skip(next as int)).unwrap();
                    assert(all.skip(done) == seq![(src, dst)] + others);
                    assert(all.skip(done).len() == 1 + others.len());
                    assert(all.skip(done)[0] == (src, dst));
                    assert(all.skip(done).skip(1) =~= all.skip(done + 1));
                    assert((seq![(src, dst)] + others).skip(1) =~= others);
                    lemma_run_next::<A>(init, all, done);
                }
                action.apply(src, dst);
                proof {
                    done = done + 1;
                }
            } else {
                proof {
                    let others = text_edges(text.skip(next as int)).unwrap();
                    assert(Seq::<(u32, u32)>::empty() + others =~= others);
                }
            }
            from = next;
        }
        proof {
            assert(text.skip(from as int).len() == 0);
            assert(all.skip(done).len() == 0);
            assert(all.take(all.len() as int) =~= all);
        }
    }
}

} // verus!
