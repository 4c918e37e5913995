//! Small building blocks for text: appending characters, joining lines.

use vstd::prelude::*;

verus! {

/// `String::push` of the standard library: the character is appended to the
/// end of the string, and nothing else about the string changes.
pub assume_specification[ String::push ](text: &mut String, ch: char)
    ensures
        final(text)@ == old(text)@.push(ch),
;

/// The lines of `lines`, with `sep` between each two neighbours.
pub open spec fn joined(lines: Seq<Seq<char>>, sep: Seq<char>) -> Seq<char>
    decreases lines.len(),
{
    if lines.len() == 0 {
        Seq::empty()
    } else if lines.len() == 1 {
        lines[0]
    } else {
        joined(lines.drop_last(), sep) + sep + lines.last()
    }
}

/// The views of the strings in `lines`, in order.
pub open spec fn line_views(lines: Seq<String>) -> Seq<Seq<char>> {
    lines.map_values(|line: String| line@)
}

/// Joins `lines` with a line feed between each two neighbours.
pub fn join_lines(lines: &Vec<String>) -> (out: String)
    ensures
        out@ == joined(line_views(lines@), seq!['\n']),
{
    let mut out = String::new();
    let mut k: usize = 0;
    while k < lines.len()
        invariant
            k <= lines.len(),
            out@ == joined(line_views(lines@).take(k as int), seq!['\n']),
        decreases lines.len() - k,
    {
        proof {
            let all = line_views(lines@);
            assert(all.take(k + 1).drop_last() == all.take(k as int));
            assert(all.take(k + 1).last() == lines@[k as int]@);
        }
        if k > 0 {
            out.push('\n');
        }
        out.append(lines[k].as_str());
        k += 1;
    }
    proof {
        let all = line_views(lines@);
        assert(all.take(lines.len() as int) == all);
    }
    out
}

/// The characters of `text`, one by one.
pub fn chars_of(text: &str) -> (out: Vec<char>)
    ensures
        out@ == text@,
{
    let mut out: Vec<char> = Vec::new();
    for c in it: text.chars()
        invariant
            it.seq() == text@,
            out@ == text@.take(it.index() as int),
    {
        assert(text@.take(it.index() + 1) == text@.take(it.index() as int).push(c));
        out.push(c);
    }
    assert(text@.take(text@.len() as int) == text@);
    out
}

/// A text that is itself a joining of lines can stand for those lines.
pub proof fn lemma_joined_nested(front: Seq<Seq<char>>, back: Seq<Seq<char>>, sep: Seq<char>)
    requires
        back.len() > 0,
    ensures
        joined(front.push(joined(back, sep)), sep) == joined(front + back, sep),
    decreases back.len(),
{
    if back.len() == 1 {
        assert(front.push(back[0]) =~= front + back);
    } else {
        let inner = back.drop_last();
        lemma_joined_nested(front, inner, sep);
        assert((front + back).drop_last() =~= front + inner);
        assert(front.push(joined(back, sep)).drop_last() =~= front);
        assert(front.push(joined(inner, sep)).drop_last() =~= front);
        if front.len() == 0 {
            assert(joined(front.push(joined(back, sep)), sep) == joined(back, sep));
            assert(joined(front.push(joined(inner, sep)), sep) == joined(inner, sep));
        } else {
            assert(joined(front.push(joined(back, sep)), sep) =~= joined(front, sep) + sep + joined(
                inner,
                sep,
            ) + sep + back.last());
        }
    }
}

/// Lines that join to the same text still do so with more lines behind.
pub proof fn lemma_joined_flat(
    left: Seq<Seq<char>>,
    right: Seq<Seq<char>>,
    back: Seq<Seq<char>>,
    sep: Seq<char>,
)
    requires
        joined(left, sep) == joined(right, sep),
        left.len() > 0,
        right.len() > 0,
    ensures
        joined(left + back, sep) == joined(right + back, sep),
    decreases back.len(),
{
    if back.len() == 0 {
        assert(left + back =~= left);
        assert(right + back =~= right);
    } else {
        lemma_joined_flat(left, right, back.drop_last(), sep);
        assert((left + back).drop_last() =~= left + back.drop_last());
        assert((right + back).drop_last() =~= right + back.drop_last());
    }
}

} // verus!
