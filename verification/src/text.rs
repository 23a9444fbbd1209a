//! Line-level reading of level text.
//!
//! A level file is read as a queue of lines: the text is cut at every line
//! feed, each piece is trimmed, and blank pieces and comments are dropped.
//! Everything here is stated over `Seq<char>`, the view of a string.
use std::collections::VecDeque;
use vstd::prelude::*;

verus! {

/// Whether `c` is white space in the sense of `char::is_whitespace`, that is,
/// whether it carries the Unicode property `White_Space`.
pub uninterp spec fn is_white_space(c: char) -> bool;

/// `char::is_whitespace` decides the Unicode `White_Space` property of one
/// character. The property is a fixed table of the standard library; the
/// contract only gives its answer a name.
pub assume_specification[ char::is_whitespace ](c: char) -> (b: bool)
    ensures
        b == is_white_space(c),
;

/// `String::push` appends one character to the end of the string.
pub assume_specification[ String::push ](s: &mut String, ch: char)
    ensures
        final(s)@ == old(s)@.push(ch),
;

/// `c` with an ASCII capital letter turned into its small letter; any other
/// character is itself.
pub open spec fn ascii_lowercase(c: char) -> char {
    if 'A' <= c && c <= 'Z' {
        ((c as u8 + 32) as u8) as char
    } else {
        c
    }
}

/// Whether `a` and `b` are the same but for the case of ASCII letters.
pub open spec fn matches_ignoring_ascii_case(a: Seq<char>, b: Seq<char>) -> bool {
    &&& a.len() == b.len()
    &&& forall|i: int| 0 <= i < a.len() ==> ascii_lowercase(#[trigger] a[i]) == ascii_lowercase(b[i])
}

/// `str::eq_ignore_ascii_case` compares two strings as if every ASCII letter
/// in both had been made lower case; other characters must be equal.
pub assume_specification[ str::eq_ignore_ascii_case ](s: &str, other: &str) -> (b: bool)
    ensures
        b == matches_ignoring_ascii_case(s@, other@),
;

/// The pieces of `text` between its line feeds, in order. A text without a
/// line feed is one piece; a text that ends in a line feed has an empty last
/// piece.
pub open spec fn split_lines(text: Seq<char>) -> Seq<Seq<char>>
    decreases text.len(),
{
    if text.len() == 0 {
        seq![Seq::empty()]
    } else {
        let before = split_lines(text.drop_last());
        if text.last() == '\n' {
            before.push(Seq::empty())
        } else {
            before.drop_last().push(before.last().push(text.last()))
        }
    }
}

/// `s` without its leading white space.
pub open spec fn trim_start(s: Seq<char>) -> Seq<char>
    decreases s.len(),
{
    if s.len() > 0 && is_white_space(s.first()) {
        trim_start(s.drop_first())
    } else {
        s
    }
}

/// `s` without its trailing white space.
pub open spec fn trim_end(s: Seq<char>) -> Seq<char>
    decreases s.len(),
{
    if s.len() > 0 && is_white_space(s.last()) {
        trim_end(s.drop_last())
    } else {
        s
    }
}

/// `s` without leading and trailing white space.
pub open spec fn trim(s: Seq<char>) -> Seq<char> {
    trim_end(trim_start(s))
}

/// A trimmed line counts unless it is blank or a comment, which starts with `#`.
pub open spec fn is_significant(line: Seq<char>) -> bool {
    line.len() > 0 && line.first() != '#'
}

/// The trimmed forms of `raw`, in order, without the blank ones and the comments.
pub open spec fn significant_lines(raw: Seq<Seq<char>>) -> Seq<Seq<char>>
    decreases raw.len(),
{
    if raw.len() == 0 {
        Seq::empty()
    } else {
        let before = significant_lines(raw.drop_last());
        let line = trim(raw.last());
        if is_significant(line) {
            before.push(line)
        } else {
            before
        }
    }
}

/// The queue of lines that a level text is parsed from.
pub open spec fn line_queue(text: Seq<char>) -> Seq<Seq<char>> {
    significant_lines(split_lines(text))
}

/// The value of a field line: what follows its first `width` characters.
pub open spec fn field_value(line: Seq<char>, width: nat) -> Seq<char> {
    line.skip(width as int)
}

/// Every text has at least one line.
pub proof fn split_lines_is_not_empty(text: Seq<char>)
    ensures
        split_lines(text).len() > 0,
    decreases text.len(),
{
    if text.len() > 0 {
        split_lines_is_not_empty(text.drop_last());
    }
}

/// A text without a line feed is one line.
pub proof fn split_lines_of_one_line(line: Seq<char>)
    requires
        !line.contains('\n'),
    ensures
        split_lines(line) == seq![line],
    decreases line.len(),
{
    if line.len() > 0 {
        let before = line.drop_last();
        assert(line.last() == line[line.len() - 1]);
        assert forall|i: int| 0 <= i < before.len() implies before[i] != '\n' by {
            assert(before[i] == line[i]);
        }
        split_lines_of_one_line(before);
        assert(before.push(line.last()) == line);
        assert(seq![before].last() == before);
        assert(seq![before].drop_last().push(line) == seq![line]);
    } else {
        assert(line == Seq::<char>::empty());
    }
}

/// The lines of two texts joined by a line feed are the lines of the first
/// followed by the lines of the second.
pub proof fn split_lines_of_joined(a: Seq<char>, b: Seq<char>)
    ensures
        split_lines(a + seq!['\n'] + b) == split_lines(a) + split_lines(b),
    decreases b.len(),
{
    let text = a + seq!['\n'] + b;
    if b.len() == 0 {
        assert(text.drop_last() == a);
        assert(split_lines(a).push(Seq::empty()) == split_lines(a) + split_lines(b));
    } else {
        let shorter = a + seq!['\n'] + b.drop_last();
        assert(text.drop_last() == shorter);
        assert(text.last() == b.last());
        split_lines_of_joined(a, b.drop_last());
        split_lines_is_not_empty(b.drop_last());
        let first = split_lines(a);
        let second = split_lines(b.drop_last());
        if b.last() == '\n' {
            assert((first + second).push(Seq::empty()) == first + second.push(Seq::empty()));
        } else {
            let line = second.last().push(b.last());
            assert((first + second).last() == second.last());
            assert((first + second).drop_last() == first + second.drop_last());
            assert((first + second.drop_last()).push(line) == first + second.drop_last().push(
                line,
            ));
        }
    }
}

/// Which lines count, and what they are trimmed to, is decided line by line.
pub proof fn significant_lines_of_concat(x: Seq<Seq<char>>, y: Seq<Seq<char>>)
    ensures
        significant_lines(x + y) == significant_lines(x) + significant_lines(y),
    decreases y.len(),
{
    if y.len() == 0 {
        assert(x + y == x);
        assert(significant_lines(x) + significant_lines(y) == significant_lines(x));
    } else {
        assert((x + y).drop_last() == x + y.drop_last());
        assert((x + y).last() == y.last());
        significant_lines_of_concat(x, y.drop_last());
        let line = trim(y.last());
        let before = significant_lines(y.drop_last());
        if is_significant(line) {
            assert((significant_lines(x) + before).push(line) == significant_lines(x)
                + before.push(line));
        }
    }
}

/// The queue read from two texts joined by a line feed is the queue of the
/// first followed by the queue of the second.
pub proof fn line_queue_of_joined(a: Seq<char>, b: Seq<char>)
    ensures
        line_queue(a + seq!['\n'] + b) == line_queue(a) + line_queue(b),
{
    split_lines_of_joined(a, b);
    significant_lines_of_concat(split_lines(a), split_lines(b));
}

/// The queue read from a text without a line feed holds the trimmed text,
/// or nothing if that is blank or a comment.
pub proof fn line_queue_of_one_line(line: Seq<char>)
    requires
        !line.contains('\n'),
    ensures
        line_queue(line) == if is_significant(trim(line)) {
            seq![trim(line)]
        } else {
            Seq::<Seq<char>>::empty()
        },
{
    split_lines_of_one_line(line);
    assert(seq![line].drop_last() == Seq::<Seq<char>>::empty());
    assert(significant_lines(seq![line].drop_last()) == Seq::<Seq<char>>::empty());
    assert(Seq::<Seq<char>>::empty().push(trim(line)) == seq![trim(line)]);
}

/// Trims `raw` and appends it to `reader` unless it is blank or a comment.
fn enqueue_line(reader: &mut VecDeque<Vec<char>>, raw: &Vec<char>)
    ensures
        final(reader).deep_view() == (if is_significant(trim(raw@)) {
            old(reader).deep_view().push(trim(raw@))
        } else {
            old(reader).deep_view()
        }),
{
    let mut start: usize = 0;
    assert(raw@.skip(0) == raw@);
    while start < raw.len() && raw[start].is_whitespace()
        invariant
            start <= raw.len(),
            trim_start(raw@) == trim_start(raw@.skip(start as int)),
        decreases raw.len() - start,
    {
        assert(raw@.skip(start as int).drop_first() == raw@.skip(start + 1));
        start += 1;
    }
    assert(trim_start(raw@) == raw@.skip(start as int));
    let mut end: usize = raw.len();
    assert(raw@.skip(start as int) == raw@.subrange(start as int, end as int));
    while end > start && raw[end - 1].is_whitespace()
        invariant
            start <= end <= raw.len(),
            trim(raw@) == trim_end(raw@.subrange(start as int, end as int)),
        decreases end,
    {
        assert(raw@.subrange(start as int, end as int).drop_last() == raw@.subrange(
            start as int,
            end - 1,
        ));
        end -= 1;
    }
    assert(trim(raw@) == raw@.subrange(start as int, end as int));
    if start < end && raw[start] != '#' {
        let mut line: Vec<char> = Vec::new();
        let mut i: usize = start;
        while i < end
            invariant
                start <= i <= end <= raw.len(),
                line@ == raw@.subrange(start as int, i as int),
            decreases end - i,
        {
            line.push(raw[i]);
            i += 1;
        }
        let ghost queue = reader.deep_view();
        assert(line.deep_view() == trim(raw@));
        reader.push_back(line);
        assert(reader.deep_view() == queue.push(trim(raw@))) by {
            assert(reader.deep_view().len() == queue.len() + 1);
            assert forall|k: int| 0 <= k < reader.deep_view().len() implies reader.deep_view()[k]
                == queue.push(trim(raw@))[k] by {
                if k < queue.len() {
                    assert(reader@[k] == old(reader)@[k]);
                }
            }
        }
    }
}

/// Reads `text` into the queue of lines that the block parsers consume.
pub fn read_lines(text: &str) -> (reader: VecDeque<Vec<char>>)
    ensures
        reader.deep_view() == line_queue(text@),
{
    let mut reader: VecDeque<Vec<char>> = VecDeque::new();
    let mut current: Vec<char> = Vec::new();
    let ghost mut done: Seq<Seq<char>> = Seq::empty();
    assert(reader.deep_view() == Seq::<Seq<char>>::empty());
    assert(text@.take(0) == Seq::<char>::empty());
    assert(seq![Seq::<char>::empty()] == done.push(current@));
    for c in it: text.chars()
        invariant
            it.seq() == text@,
            split_lines(text@.take(it.index())) == done.push(current@),
            reader.deep_view() == significant_lines(done),
    {
        let ghost seen = text@.take(it.index());
        assert(text@.take(it.index() + 1).drop_last() == seen);
        if c == '\n' {
            enqueue_line(&mut reader, &current);
            proof {
                assert(done.push(current@).drop_last() == done);
                done = done.push(current@);
            }
            current = Vec::new();
        } else {
            assert(done.push(current@).drop_last() == done);
            current.push(c);
        }
    }
    assert(text@.take(text@.len() as int) == text@);
    enqueue_line(&mut reader, &current);
    assert(done.push(current@).drop_last() == done);
    reader
}

/// Whether `line` begins with the characters of `key`.
pub fn starts_with(line: &Vec<char>, key: &str) -> (b: bool)
    ensures
        b == key@.is_prefix_of(line@),
{
    let mut i: usize = 0;
    for c in it: key.chars()
        invariant
            it.seq() == key@,
            i == it.index(),
            i <= line.len(),
            line@.take(i as int) == key@.take(i as int),
    {
        if i >= line.len() || line[i] != c {
            assert(!key@.is_prefix_of(line@)) by {
                if key@.is_prefix_of(line@) {
                    assert(key@[i as int] == line@.subrange(0, key@.len() as int)[i as int]);
                }
            }
            return false;
        }
        assert(line@.take(i + 1) == line@.take(i as int).push(line@[i as int]));
        assert(key@.take(i + 1) == key@.take(i as int).push(key@[i as int]));
        i += 1;
    }
    assert(key@.take(key@.len() as int) == key@);
    true
}

/// The characters of `line` from index `from` on, as a string.
pub(crate) fn string_from(line: &Vec<char>, from: usize) -> (s: String)
    requires
        from <= line.len(),
    ensures
        s@ == line@.skip(from as int),
{
    let mut s = String::new();
    let mut i: usize = from;
    while i < line.len()
        invariant
            from <= i <= line.len(),
            s@ == line@.subrange(from as int, i as int),
        decreases line.len() - i,
    {
        s.push(line[i]);
        i += 1;
    }
    s
}

} // verus!
