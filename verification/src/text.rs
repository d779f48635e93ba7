//! Character-level helpers: the model of a buffer is the sequence of its
//! characters, and positions count characters, not bytes.

use vstd::prelude::*;

verus! {

/// `String::push` appends the given character at the end of the string and
/// leaves the characters before it as they were.
pub assume_specification[ String::push ](s: &mut String, c: char)
    ensures
        final(s)@ == old(s)@.push(c),
;

/// Length of the longest prefix of `s` in which `c` does not occur: the
/// position of the first `c`, or the length of `s` where there is none.
pub open spec fn span_until(s: Seq<char>, c: char) -> nat
    decreases s.len(),
{
    if s.len() == 0 || s[0] == c {
        0
    } else {
        1 + span_until(s.drop_first(), c)
    }
}

/// Length of the longest prefix of `s` that consists of `c` alone.
pub open spec fn run_len(s: Seq<char>, c: char) -> nat
    decreases s.len(),
{
    if s.len() == 0 || s[0] != c {
        0
    } else {
        1 + run_len(s.drop_first(), c)
    }
}

/// The buffer without its leading spaces.
pub open spec fn without_leading_spaces(buffer: Seq<char>) -> Seq<char> {
    buffer.skip(run_len(buffer, ' ') as int)
}

/// `span_until` stops at the first `c` and nowhere before it.
pub proof fn lemma_span_until(s: Seq<char>, c: char)
    ensures
        span_until(s, c) <= s.len(),
        forall|i: int| 0 <= i < span_until(s, c) ==> s[i] != c,
        span_until(s, c) < s.len() ==> s[span_until(s, c) as int] == c,
    decreases s.len(),
{
    if s.len() != 0 && s[0] != c {
        let t = s.drop_first();
        lemma_span_until(t, c);
        assert forall|i: int| 0 <= i < span_until(s, c) implies s[i] != c by {
            if i > 0 {
                assert(s[i] == t[i - 1]);
            }
        }
        if span_until(s, c) < s.len() {
            assert(s[span_until(s, c) as int] == t[span_until(t, c) as int]);
        }
    }
}

/// A position that is free of `c` before it and holds `c`, or the end, is the
/// one that `span_until` finds.
pub proof fn lemma_span_until_at(s: Seq<char>, c: char, k: int)
    requires
        0 <= k <= s.len(),
        forall|i: int| 0 <= i < k ==> s[i] != c,
        k < s.len() ==> s[k] == c,
    ensures
        span_until(s, c) == k,
    decreases s.len(),
{
    if k > 0 {
        let t = s.drop_first();
        assert forall|i: int| 0 <= i < k - 1 implies t[i] != c by {
            assert(t[i] == s[i + 1]);
        }
        lemma_span_until_at(t, c, k - 1);
    }
}

/// `run_len` stops at the first character other than `c`.
pub proof fn lemma_run_len(s: Seq<char>, c: char)
    ensures
        run_len(s, c) <= s.len(),
        forall|i: int| 0 <= i < run_len(s, c) ==> s[i] == c,
        run_len(s, c) < s.len() ==> s[run_len(s, c) as int] != c,
    decreases s.len(),
{
    if s.len() != 0 && s[0] == c {
        let t = s.drop_first();
        lemma_run_len(t, c);
        assert forall|i: int| 0 <= i < run_len(s, c) implies s[i] == c by {
            if i > 0 {
                assert(s[i] == t[i - 1]);
            }
        }
        if run_len(s, c) < s.len() {
            assert(s[run_len(s, c) as int] == t[run_len(t, c) as int]);
        }
    }
}

/// A position with `c` alone before it that holds another character, or is
/// the end, is the one that `run_len` finds.
pub proof fn lemma_run_len_at(s: Seq<char>, c: char, k: int)
    requires
        0 <= k <= s.len(),
        forall|i: int| 0 <= i < k ==> s[i] == c,
        k < s.len() ==> s[k] != c,
    ensures
        run_len(s, c) == k,
    decreases s.len(),
{
    if k > 0 {
        let t = s.drop_first();
        assert forall|i: int| 0 <= i < k - 1 implies t[i] == c by {
            assert(t[i] == s[i + 1]);
        }
        lemma_run_len_at(t, c, k - 1);
    }
}

/// The characters of `s`, in order.
pub(crate) fn chars_of(s: &str) -> (chars: Vec<char>)
    ensures
        chars@ == s@,
{
    let mut chars: Vec<char> = Vec::new();
    for c in it: s.chars()
        invariant
            it.seq() == s@,
            chars@ == s@.take(it.index() as int),
    {
        chars.push(c);
    }
    chars
}

/// The string made of the characters of `chars` from position `from` up to,
/// not including, position `to`.
pub(crate) fn string_of(chars: &Vec<char>, from: usize, to: usize) -> (s: String)
    requires
        from <= to <= chars.len(),
    ensures
        s@ == chars@.subrange(from as int, to as int),
{
    let mut s = String::new();
    let mut i: usize = from;
    while i < to
        invariant
            from <= i <= to <= chars.len(),
            s@ == chars@.subrange(from as int, i as int),
        decreases to - i,
    {
        s.push(chars[i]);
        i = i + 1;
    }
    s
}

/// Position of the first `c` at or after `from`, or the length of `chars`
/// where there is none.
pub(crate) fn position_of(chars: &Vec<char>, from: usize, c: char) -> (k: usize)
    requires
        from <= chars.len(),
    ensures
        from <= k <= chars.len(),
        k == from + span_until(chars@.skip(from as int), c),
{
    let mut k: usize = from;
    while k < chars.len() && chars[k] != c
        invariant
            from <= k <= chars.len(),
            forall|i: int| from <= i < k ==> chars@[i] != c,
        decreases chars.len() - k,
    {
        k = k + 1;
    }
    proof {
        lemma_span_until_at(chars@.skip(from as int), c, k - from);
    }
    k
}

/// Position of the first character other than `c` at or after `from`, or the
/// length of `chars` where there is none.
pub(crate) fn position_after_run(chars: &Vec<char>, from: usize, c: char) -> (k: usize)
    requires
        from <= chars.len(),
    ensures
        from <= k <= chars.len(),
        k == from + run_len(chars@.skip(from as int), c),
{
    let mut k: usize = from;
    while k < chars.len() && chars[k] == c
        invariant
            from <= k <= chars.len(),
            forall|i: int| from <= i < k ==> chars@[i] == c,
        decreases chars.len() - k,
    {
        k = k + 1;
    }
    proof {
        lemma_run_len_at(chars@.skip(from as int), c, k - from);
    }
    k
}

/// Removes the spaces at the start of a buffer. A buffer of spaces alone
/// becomes empty.
pub fn filter_start_espace(contents: &mut String)
    ensures
        final(contents)@ == without_leading_spaces(old(contents)@),
{
    let chars = chars_of(contents.as_str());
    let start = position_after_run(&chars, 0, ' ');
    assert(chars@.skip(0) == chars@);
    *contents = string_of(&chars, start, chars.len());
}

/// A space in front of a buffer that does not start with one is all that
/// `without_leading_spaces` takes away.
pub proof fn lemma_one_space(tail: Seq<char>)
    requires
        tail.len() == 0 || tail[0] != ' ',
    ensures
        without_leading_spaces(seq![' '] + tail) == tail,
{
    let buffer = seq![' '] + tail;
    assert forall|i: int| 0 <= i < 1 implies buffer[i] == ' ' by {}
    if tail.len() > 0 {
        assert(buffer[1] == tail[0]);
    }
    lemma_run_len_at(buffer, ' ', 1);
    assert(buffer.skip(1) == tail);
}

} // verus!
