//! Byte strings made of lines.
//!
//! A line ends with a line feed, or with a carriage return and a line feed. The last line
//! may do without. Empty lines are left out.

use vstd::prelude::*;

verus! {

/// A line feed.
pub const FEED: u8 = 10;

/// A carriage return.
pub const RETURN: u8 = 13;

/// A line without the carriage return at its end.
pub open spec fn trimmed(line: Seq<u8>) -> Seq<u8> {
    if line.len() > 0 && line.last() == RETURN {
        line.drop_last()
    } else {
        line
    }
}

/// Lines with one more, unless that is empty.
pub open spec fn with_line(lines: Seq<Seq<u8>>, line: Seq<u8>) -> Seq<Seq<u8>> {
    if line.len() == 0 {
        lines
    } else {
        lines.push(line)
    }
}

/// The lines that have ended, and what stands behind them.
pub open spec fn cut(b: Seq<u8>) -> (Seq<Seq<u8>>, Seq<u8>)
    decreases b.len(),
{
    if b.len() == 0 {
        (Seq::empty(), Seq::empty())
    } else {
        let (lines, rest) = cut(b.drop_last());
        if b.last() == FEED {
            (with_line(lines, trimmed(rest)), Seq::empty())
        } else {
            (lines, rest.push(b.last()))
        }
    }
}

/// The lines of some bytes.
pub open spec fn lines_of(b: Seq<u8>) -> Seq<Seq<u8>> {
    with_line(cut(b).0, cut(b).1)
}

/// Lines one after the other, each with a line feed.
pub open spec fn joined(lines: Seq<Seq<u8>>) -> Seq<u8>
    decreases lines.len(),
{
    if lines.len() == 0 {
        Seq::empty()
    } else {
        joined(lines.drop_last()) + lines.last().push(FEED)
    }
}

/// Whether bytes can be a line.
pub open spec fn is_line(line: Seq<u8>) -> bool {
    line.len() > 0 && !line.contains(FEED) && line.last() != RETURN
}

/// What some byte strings are.
pub open spec fn byte_views(v: Seq<Vec<u8>>) -> Seq<Seq<u8>> {
    Seq::new(v.len(), |i: int| v[i]@)
}

/// Lines that are joined are taken apart again as they were.
pub proof fn law_lines_round_trip(lines: Seq<Seq<u8>>)
    requires
        forall|i: int| 0 <= i < lines.len() ==> is_line(#[trigger] lines[i]),
    ensures
        lines_of(joined(lines)) == lines,
{
    lemma_cut_joined(lines);
}

proof fn lemma_cut_joined(lines: Seq<Seq<u8>>)
    requires
        forall|i: int| 0 <= i < lines.len() ==> is_line(#[trigger] lines[i]),
    ensures
        cut(joined(lines)) == (lines, Seq::<u8>::empty()),
    decreases lines.len(),
{
    if lines.len() > 0 {
        let rest = lines.drop_last();
        let last = lines.last();
        assert forall|i: int| 0 <= i < rest.len() implies is_line(#[trigger] rest[i]) by {
            assert(is_line(lines[i]));
        }
        assert(is_line(lines[lines.len() - 1]));
        lemma_cut_joined(rest);
        lemma_cut_more(joined(rest), last);
        let all = joined(lines);
        assert(all.drop_last() =~= joined(rest) + last);
        assert(all.last() == FEED);
        assert(Seq::<u8>::empty() + last =~= last);
        assert(rest.push(last) =~= lines);
    } else {
        assert(lines =~= Seq::<Seq<u8>>::empty());
    }
}

/// What is added without a line feed stands behind the lines.
proof fn lemma_cut_more(a: Seq<u8>, b: Seq<u8>)
    requires
        !b.contains(FEED),
    ensures
        cut(a + b) == (cut(a).0, cut(a).1 + b),
    decreases b.len(),
{
    if b.len() == 0 {
        assert(a + b =~= a);
        assert(cut(a).1 + b =~= cut(a).1);
    } else {
        let c = b.drop_last();
        assert(!c.contains(FEED)) by {
            if c.contains(FEED) {
                let i = choose|i: int| 0 <= i < c.len() && c[i] == FEED;
                assert(b[i] == FEED);
            }
        }
        lemma_cut_more(a, c);
        assert((a + b).drop_last() =~= a + c);
        assert((a + b).last() == b[b.len() - 1]);
        assert((cut(a).1 + c).push(b.last()) =~= cut(a).1 + b);
    }
}

/// The lines of some bytes.
pub fn split_lines(b: &[u8]) -> (r: Vec<Vec<u8>>)
    ensures
        byte_views(r@) == lines_of(b@),
{
    let mut lines: Vec<Vec<u8>> = Vec::new();
    let mut rest: Vec<u8> = Vec::new();
    let mut i: usize = 0;
    assert(b@.take(0) =~= Seq::<u8>::empty());
    assert(byte_views(lines@) =~= Seq::<Seq<u8>>::empty());
    while i < b.len()
        invariant
            i <= b@.len(),
            cut(b@.take(i as int)) == (byte_views(lines@), rest@),
        decreases b.len() - i,
    {
        let ghost before = lines@;
        let c: u8 = b[i];
        assert(b@.take(i + 1).drop_last() =~= b@.take(i as int));
        if c == FEED {
            if rest.len() > 0 && rest[rest.len() - 1] == RETURN {
                let _ = rest.pop();
            }
            if rest.len() > 0 {
                let ghost line = rest@;
                lines.push(rest);
                assert(byte_views(lines@) =~= byte_views(before).push(line));
            }
            rest = Vec::new();
        } else {
            rest.push(c);
        }
        i = i + 1;
    }
    assert(b@.take(b@.len() as int) =~= b@);
    if rest.len() > 0 {
        let ghost before = lines@;
        let ghost line = rest@;
        lines.push(rest);
        assert(byte_views(lines@) =~= byte_views(before).push(line));
    }
    lines
}

/// Lines one after the other, each with a line feed.
pub fn join_lines(lines: &Vec<Vec<u8>>) -> (r: Vec<u8>)
    ensures
        r@ == joined(byte_views(lines@)),
{
    let mut r: Vec<u8> = Vec::new();
    let mut i: usize = 0;
    let ghost all = byte_views(lines@);
    assert(all.take(0) =~= Seq::<Seq<u8>>::empty());
    while i < lines.len()
        invariant
            i <= lines@.len(),
            all == byte_views(lines@),
            r@ == joined(all.take(i as int)),
        decreases lines.len() - i,
    {
        let ghost before = r@;
        assert(all.take(i + 1).drop_last() =~= all.take(i as int));
        assert(all.take(i + 1).last() == lines@[i as int]@);
        r.extend_from_slice(lines[i].as_slice());
        r.push(FEED);
        assert(r@ =~= before + lines@[i as int]@.push(FEED));
        i = i + 1;
    }
    assert(all.take(all.len() as int) =~= all);
    r
}

} // verus!
