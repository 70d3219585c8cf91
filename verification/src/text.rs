//! Text as lines of characters.

use vstd::prelude::*;

verus! {

/// The lines of a text: what stands between its line breaks. A text with
/// `n` line breaks has `n + 1` lines, the last of which is empty where the
/// text ends in a line break.
pub open spec fn lines_of(text: Seq<char>) -> Seq<Seq<char>>
    decreases text.len(),
{
    if text.len() == 0 {
        seq![Seq::empty()]
    } else {
        let before = lines_of(text.drop_last());
        if text.last() == '\n' {
            before.push(Seq::empty())
        } else {
            before.drop_last().push(before.last().push(text.last()))
        }
    }
}

/// A text has a line.
pub proof fn lemma_lines_of_nonempty(text: Seq<char>)
    ensures
        lines_of(text).len() > 0,
    decreases text.len(),
{
    if text.len() > 0 {
        lemma_lines_of_nonempty(text.drop_last());
    }
}

/// The views of a list of lines.
pub open spec fn lines_view(lines: Seq<Vec<char>>) -> Seq<Seq<char>> {
    lines.map_values(|line: Vec<char>| line@)
}

/// The lines of `text`, split at every line break.
pub fn split_lines(text: &str) -> (lines: Vec<Vec<char>>)
    ensures
        lines_view(lines@) == lines_of(text@),
{
    broadcast use vstd::string::axiom_spec_iter;

    let mut lines: Vec<Vec<char>> = Vec::new();
    let mut line: Vec<char> = Vec::new();
    proof {
        assert(text@.take(0) =~= Seq::<char>::empty());
    }
    for c in it: text.chars()
        invariant
            it.seq() == text@,
            lines_view(lines@).push(line@) == lines_of(text@.take(it.index())),
    {
        proof {
            let i = it.index();
            let done = text@.take(i);
            let more = text@.take(i + 1);
            assert(more.drop_last() =~= done);
            assert(more.last() == c);
            let before = lines_view(lines@).push(line@);
            assert(before.drop_last() =~= lines_view(lines@));
            assert(before.last() == line@);
        }
        if c == '\n' {
            let ghost held = lines_view(lines@);
            lines.push(line);
            proof {
                assert(lines_view(lines@) =~= held.push(line@));
            }
            line = Vec::new();
        } else {
            line.push(c);
        }
    }
    proof {
        assert(text@.take(text@.len() as int) =~= text@);
    }
    let ghost held = lines_view(lines@);
    lines.push(line);
    proof {
        assert(lines_view(lines@) =~= held.push(line@));
    }
    lines
}

/// The characters of `text`.
pub fn chars_of(text: &str) -> (chars: Vec<char>)
    ensures
        chars@ == text@,
{
    broadcast use vstd::string::axiom_spec_iter;

    let mut chars: Vec<char> = Vec::new();
    for c in it: text.chars()
        invariant
            it.seq() == text@,
            chars@ == text@.take(it.index()),
    {
        proof {
            assert(text@.take(it.index() + 1) =~= text@.take(it.index()).push(c));
        }
        chars.push(c);
    }
    proof {
        assert(text@.take(text@.len() as int) =~= text@);
    }
    chars
}

/// `String::from_iter`: the string made of the given characters, in order.
#[verifier::external_body]
pub(crate) fn string_from_chars(chars: &Vec<char>) -> (text: String)
    ensures
        text@ == chars@,
{
    String::from_iter(chars.iter())
}

/// The pieces `pieces(0)` to `pieces(n - 1)`, one after the other.
pub open spec fn joined(pieces: spec_fn(int) -> Seq<char>, n: int) -> Seq<char>
    decreases n,
{
    if n <= 0 {
        Seq::empty()
    } else {
        joined(pieces, n - 1) + pieces(n - 1)
    }
}

} // verus!
