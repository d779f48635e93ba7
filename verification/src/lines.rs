//! Lines of a text: how a text falls into lines, what a comment leaves of a
//! line, and the reader that hands out the lines one by one.

use vstd::prelude::*;
use crate::text::{
    chars_of, lemma_span_until, lemma_span_until_at, position_of, span_until, string_of,
};

verus! {

/// What a comment leaves of a line: the characters before the first `#`, or
/// the whole line where it has none.
pub open spec fn strip_comment(line: Seq<char>) -> Seq<char> {
    line.take(span_until(line, '#') as int)
}

/// A line without the carriage return at its end, if it has one.
pub open spec fn without_cr(line: Seq<char>) -> Seq<char> {
    if line.len() > 0 && line.last() == '\r' {
        line.drop_last()
    } else {
        line
    }
}

/// The lines of a text. A line ends at a line feed; the line feed, and one
/// carriage return before it, are no part of the line. What follows the last
/// line feed is a line of its own unless it is empty, and keeps a carriage
/// return at its end.
pub open spec fn split_lines(text: Seq<char>) -> Seq<Seq<char>>
    decreases text.len(),
{
    let end = span_until(text, '\n') as int;
    if text.len() == 0 {
        Seq::empty()
    } else if end >= text.len() {
        seq![text]
    } else {
        seq![without_cr(text.take(end))] + split_lines(text.skip(end + 1))
    }
}

/// The content of the first line that has any: what a comment leaves of the
/// first line of which it leaves anything. Empty where there is no such line.
pub open spec fn first_content(lines: Seq<Seq<char>>) -> Seq<char>
    decreases lines.len(),
{
    if lines.len() == 0 {
        Seq::empty()
    } else if strip_comment(lines[0]).len() > 0 {
        strip_comment(lines[0])
    } else {
        first_content(lines.drop_first())
    }
}

/// The lines behind the first line that has content. Empty where there is no
/// such line.
pub open spec fn after_first_content(lines: Seq<Seq<char>>) -> Seq<Seq<char>>
    decreases lines.len(),
{
    if lines.len() == 0 {
        lines
    } else if strip_comment(lines[0]).len() > 0 {
        lines.drop_first()
    } else {
        after_first_content(lines.drop_first())
    }
}

/// No line has content: each is empty or starts with `#`.
pub open spec fn without_content(lines: Seq<Seq<char>>) -> bool {
    forall|i: int| 0 <= i < lines.len() ==> strip_comment(#[trigger] lines[i]).len() == 0
}

/// Removes the comment of a line: returns the characters before the first
/// `#`, or the whole line where it has none.
pub fn filter_commentaire(contents: &String) -> (content: String)
    ensures
        content@ == strip_comment(contents@),
{
    let chars = chars_of(contents.as_str());
    let end = position_of(&chars, 0, '#');
    assert(chars@.skip(0) == chars@);
    string_of(&chars, 0, end)
}

/// The lines of a text, handed out one by one from the first.
pub struct Lines {
    lines: Vec<String>,
    next: usize,
}

impl View for Lines {
    type V = Seq<Seq<char>>;

    /// The lines that are still to come, in order.
    closed spec fn view(&self) -> Seq<Seq<char>> {
        if self.next <= self.lines.len() {
            self.lines.deep_view().skip(self.next as int)
        } else {
            Seq::empty()
        }
    }
}

impl Lines {
    /// A reader at the first line of `text`.
    pub fn new(text: &str) -> (lines: Lines)
        ensures
            lines@ == split_lines(text@),
    {
        let chars = chars_of(text);
        let n = chars.len();
        let mut lines: Vec<String> = Vec::new();
        let mut start: usize = 0;
        assert(chars@.skip(0) == chars@);
        assert(lines.deep_view() + split_lines(chars@) == split_lines(chars@));
        while start < n
            invariant
                start <= n == chars.len(),
                split_lines(chars@) == lines.deep_view() + split_lines(chars@.skip(start as int)),
            decreases n - start,
        {
            let ghost rest = chars@.skip(start as int);
            let ghost before = lines.deep_view();
            let end = position_of(&chars, start, '\n');
            if end == n {
                let line = string_of(&chars, start, n);
                lines.push(line);
                proof {
                    assert(line@ == rest);
                    assert(chars@.skip(n as int).len() == 0);
                    assert(lines.deep_view() == before.push(rest));
                    assert(before + seq![rest] == lines.deep_view() + split_lines(
                        chars@.skip(n as int),
                    ));
                }
                start = n;
            } else {
                let stop = if end > start && chars[end - 1] == '\r' {
                    end - 1
                } else {
                    end
                };
                let line = string_of(&chars, start, stop);
                lines.push(line);
                proof {
                    let whole = rest.take(end - start);
                    assert(whole == chars@.subrange(start as int, end as int));
                    assert(line@ == without_cr(whole));
                    assert(rest.skip(end - start + 1) == chars@.skip(end + 1));
                    assert(lines.deep_view() == before.push(line@));
                    assert(before + (seq![line@] + split_lines(chars@.skip(end + 1)))
                        == lines.deep_view() + split_lines(chars@.skip(end + 1)));
                }
                start = end + 1;
            }
        }
        proof {
            assert(split_lines(chars@.skip(n as int)) == Seq::<Seq<char>>::empty());
            assert(lines.deep_view() + Seq::<Seq<char>>::empty() == lines.deep_view());
            assert(lines.deep_view().skip(0) == lines.deep_view());
        }
        Lines { lines, next: 0 }
    }

    /// Hands out the next line, if one is left.
    pub fn next_line(&mut self) -> (line: Option<String>)
        ensures
            old(self)@.len() == 0 ==> line is None && final(self)@ == old(self)@,
            old(self)@.len() > 0 ==> line is Some && line->0@ == old(self)@[0] && final(self)@
                == old(self)@.drop_first(),
    {
        if self.next < self.lines.len() {
            let line = self.lines[self.next].clone();
            proof {
                let all = self.lines.deep_view();
                assert(all.skip(self.next as int).drop_first() == all.skip(self.next + 1));
            }
            self.next = self.next + 1;
            Some(line)
        } else {
            None
        }
    }
}

/// Finds the next line that holds more than a comment, and returns what the
/// comment leaves of it. Lines that are empty or hold a comment alone are
/// passed over. Returns the empty string where no line with content is left.
pub fn find_line_not_commentaire(lines: &mut Lines) -> (content: String)
    ensures
        content@ == first_content(old(lines)@),
        final(lines)@ == after_first_content(old(lines)@),
{
    loop
        invariant
            first_content(lines@) == first_content(old(lines)@),
            after_first_content(lines@) == after_first_content(old(lines)@),
        decreases lines@.len(),
    {
        match lines.next_line() {
            None => {
                return String::new();
            },
            Some(line) => {
                let content = filter_commentaire(&line);
                if !content.as_str().is_empty() {
                    return content;
                }
            },
        }
    }
}

/// A text without a line feed that is not empty is one line.
pub proof fn lemma_split_one_line(line: Seq<char>)
    requires
        line.len() > 0,
        forall|i: int| 0 <= i < line.len() ==> line[i] != '\n',
    ensures
        split_lines(line) == seq![line],
{
    lemma_span_until_at(line, '\n', line.len() as int);
}

/// Behind a text that ends with a line feed, the lines of what follows start
/// afresh.
pub proof fn lemma_split_concat(text: Seq<char>, more: Seq<char>)
    requires
        text.len() == 0 || text.last() == '\n',
    ensures
        split_lines(text + more) == split_lines(text) + split_lines(more),
    decreases text.len(),
{
    if text.len() == 0 {
        assert(text + more == more);
        assert(split_lines(text) + split_lines(more) == split_lines(more));
    } else {
        let all = text + more;
        let end = span_until(text, '\n') as int;
        lemma_span_until(text, '\n');
        assert(end < text.len()) by {
            if end >= text.len() {
                assert(text[text.len() - 1] != '\n');
            }
        }
        assert forall|i: int| 0 <= i < end implies all[i] != '\n' by {
            assert(all[i] == text[i]);
        }
        assert(all[end] == text[end]);
        lemma_span_until_at(all, '\n', end);
        let behind = text.skip(end + 1);
        assert(all.take(end) == text.take(end));
        assert(all.skip(end + 1) == behind + more);
        if behind.len() > 0 {
            assert(behind.last() == text.last());
        }
        lemma_split_concat(behind, more);
        let line = seq![without_cr(text.take(end))];
        assert(line + (split_lines(behind) + split_lines(more)) == (line + split_lines(behind))
            + split_lines(more));
    }
}

/// No line of a text holds a line feed.
pub proof fn lemma_lines_hold_no_line_feed(text: Seq<char>)
    ensures
        forall|i: int, j: int|
            0 <= i < split_lines(text).len() && 0 <= j < split_lines(text)[i].len()
                ==> split_lines(text)[i][j] != '\n',
    decreases text.len(),
{
    let end = span_until(text, '\n') as int;
    let lines = split_lines(text);
    lemma_span_until(text, '\n');
    if text.len() == 0 {
    } else if end >= text.len() {
        assert forall|i: int, j: int| 0 <= i < lines.len() && 0 <= j < lines[i].len() implies
            lines[i][j] != '\n' by {
            assert(lines[i] == text);
        }
    } else {
        let first = without_cr(text.take(end));
        let behind = split_lines(text.skip(end + 1));
        lemma_lines_hold_no_line_feed(text.skip(end + 1));
        assert forall|i: int, j: int| 0 <= i < lines.len() && 0 <= j < lines[i].len() implies
            lines[i][j] != '\n' by {
            if i == 0 {
                assert(lines[0] == first);
                assert(first[j] == text[j]);
            } else {
                assert(lines[i] == behind[i - 1]);
            }
        }
    }
}

/// Lines without content in front of others are passed over.
pub proof fn lemma_pass_over(silent: Seq<Seq<char>>, lines: Seq<Seq<char>>)
    requires
        without_content(silent),
    ensures
        first_content(silent + lines) == first_content(lines),
        after_first_content(silent + lines) == after_first_content(lines),
    decreases silent.len(),
{
    if silent.len() == 0 {
        assert(silent + lines == lines);
    } else {
        let all = silent + lines;
        assert(all[0] == silent[0]);
        assert(all.drop_first() == silent.drop_first() + lines);
        assert forall|i: int| 0 <= i < silent.drop_first().len() implies strip_comment(
            #[trigger] silent.drop_first()[i],
        ).len() == 0 by {
            assert(silent.drop_first()[i] == silent[i + 1]);
        }
        lemma_pass_over(silent.drop_first(), lines);
    }
}

/// A line without `#` that is not empty, in front of others, is the first
/// with content, and is its own content.
pub proof fn lemma_content_line(line: Seq<char>, lines: Seq<Seq<char>>)
    requires
        line.len() > 0,
        forall|i: int| 0 <= i < line.len() ==> line[i] != '#',
    ensures
        first_content(seq![line] + lines) == line,
        after_first_content(seq![line] + lines) == lines,
{
    let all = seq![line] + lines;
    lemma_span_until_at(line, '#', line.len() as int);
    assert(strip_comment(line) == line);
    assert(all[0] == line);
    assert(all.drop_first() == lines);
}

/// Lines of which one has content, in front of others: the first content is
/// theirs, and the others follow what is left of them.
pub proof fn lemma_content_in_front(front: Seq<Seq<char>>, lines: Seq<Seq<char>>)
    requires
        !without_content(front),
    ensures
        first_content(front + lines) == first_content(front),
        after_first_content(front + lines) == after_first_content(front) + lines,
    decreases front.len(),
{
    let all = front + lines;
    assert(front.len() > 0);
    assert(all[0] == front[0]);
    assert(all.drop_first() == front.drop_first() + lines);
    if strip_comment(front[0]).len() == 0 {
        let behind = front.drop_first();
        assert(!without_content(behind)) by {
            if without_content(behind) {
                assert forall|i: int| 0 <= i < front.len() implies strip_comment(
                    #[trigger] front[i],
                ).len() == 0 by {
                    if i > 0 {
                        assert(front[i] == behind[i - 1]);
                    }
                }
            }
        }
        lemma_content_in_front(behind, lines);
    }
}

/// The first content of some lines holds no `#`, and no line feed where no
/// line holds one.
pub proof fn lemma_first_content_is_plain(lines: Seq<Seq<char>>)
    requires
        forall|i: int, j: int| 0 <= i < lines.len() && 0 <= j < lines[i].len() ==> lines[i][j] != '\n',
    ensures
        forall|j: int|
            0 <= j < first_content(lines).len() ==> first_content(lines)[j] != '#'
                && first_content(lines)[j] != '\n',
    decreases lines.len(),
{
    let content = first_content(lines);
    if lines.len() == 0 {
    } else if strip_comment(lines[0]).len() > 0 {
        let line = lines[0];
        lemma_span_until(line, '#');
        assert(content == strip_comment(line));
        assert forall|j: int| 0 <= j < content.len() implies content[j] != '#' && content[j]
            != '\n' by {
            assert(content[j] == line[j]);
            assert(lines[0][j] != '\n');
        }
    } else {
        let behind = lines.drop_first();
        assert forall|i: int, j: int| 0 <= i < behind.len() && 0 <= j < behind[i].len() implies
            behind[i][j] != '\n' by {
            assert(behind[i] == lines[i + 1]);
            assert(lines[i + 1][j] != '\n');
        }
        lemma_first_content_is_plain(behind);
        assert(content == first_content(behind));
    }
}

/// Where no line has content, nothing follows the first content.
pub proof fn lemma_no_content_no_rest(lines: Seq<Seq<char>>)
    requires
        first_content(lines).len() == 0,
    ensures
        after_first_content(lines).len() == 0,
    decreases lines.len(),
{
    if lines.len() > 0 {
        lemma_no_content_no_rest(lines.drop_first());
    }
}

} // verus!
