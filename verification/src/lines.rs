//! Splitting file contents into newline-terminated byte lines.

use vstd::prelude::*;

verus! {

/// The line terminator.
pub const NEWLINE: u8 = 10;

/// The lines of `data` that begin at or after `start`, where the bytes in
/// `start..pos` are already known to hold no terminator.
///
/// Every terminator ends a line (possibly an empty one). Bytes after the last
/// terminator form a final line when there are any.
pub open spec fn lines_from(data: Seq<u8>, start: int, pos: int) -> Seq<Seq<u8>>
    decreases data.len() - pos,
{
    if pos >= data.len() {
        if start < data.len() {
            seq![data.subrange(start, data.len() as int)]
        } else {
            Seq::empty()
        }
    } else if data[pos] == NEWLINE {
        seq![data.subrange(start, pos)] + lines_from(data, pos + 1, pos + 1)
    } else {
        lines_from(data, start, pos + 1)
    }
}

/// All lines of `data`, terminators stripped.
pub open spec fn lines_of(data: Seq<u8>) -> Seq<Seq<u8>> {
    lines_from(data, 0, 0)
}

/// The views of a vector of byte strings.
pub open spec fn views(v: Seq<Vec<u8>>) -> Seq<Seq<u8>> {
    Seq::new(v.len(), |i: int| v[i]@)
}

/// Copies `data[start..end]` into a fresh vector.
pub fn copy_range(data: &[u8], start: usize, end: usize) -> (out: Vec<u8>)
    requires
        start <= end <= data@.len(),
    ensures
        out@ == data@.subrange(start as int, end as int),
{
    let mut out: Vec<u8> = Vec::new();
    let mut i: usize = start;
    while i < end
        invariant
            start <= i <= end <= data@.len(),
            out@ == data@.subrange(start as int, i as int),
        decreases end - i,
    {
        out.push(data[i]);
        i += 1;
        assert(out@ =~= data@.subrange(start as int, i as int));
    }
    out
}

/// Splits `data` into its lines.
pub fn split_lines(data: &[u8]) -> (out: Vec<Vec<u8>>)
    ensures
        views(out@) == lines_of(data@),
{
    let mut out: Vec<Vec<u8>> = Vec::new();
    let mut start: usize = 0;
    let mut pos: usize = 0;
    assert(views(out@) =~= Seq::<Seq<u8>>::empty());
    while pos < data.len()
        invariant
            start <= pos <= data@.len(),
            views(out@) + lines_from(data@, start as int, pos as int) == lines_of(data@),
        decreases data@.len() - pos,
    {
        if data[pos] == NEWLINE {
            let line = copy_range(data, start, pos);
            let ghost before = views(out@);
            out.push(line);
            pos += 1;
            start = pos;
            proof {
                assert(views(out@) =~= before + seq![line@]);
                assert((before + seq![line@]) + lines_from(data@, pos as int, pos as int)
                    =~= before + (seq![line@] + lines_from(data@, pos as int, pos as int)));
            }
        } else {
            pos += 1;
        }
    }
    if start < data.len() {
        let line = copy_range(data, start, data.len());
        let ghost before = views(out@);
        out.push(line);
        assert(views(out@) =~= before + seq![line@]);
    } else {
        assert(views(out@) + Seq::<Seq<u8>>::empty() =~= views(out@));
    }
    out
}

/// The length of the longest of `alts`; 0 when there is none.
pub open spec fn longest(alts: Seq<Seq<u8>>) -> nat
    decreases alts.len(),
{
    if alts.len() == 0 {
        0
    } else if alts.last().len() > longest(alts.drop_last()) {
        alts.last().len()
    } else {
        longest(alts.drop_last())
    }
}

/// The length of the shortest of `alts`; 0 when there is none.
pub open spec fn shortest(alts: Seq<Seq<u8>>) -> nat
    decreases alts.len(),
{
    if alts.len() == 0 {
        0
    } else if alts.len() == 1 || alts.last().len() < shortest(alts.drop_last()) {
        alts.last().len()
    } else {
        shortest(alts.drop_last())
    }
}

/// The shortest is no longer than the longest.
pub proof fn lemma_shortest_below_longest(alts: Seq<Seq<u8>>)
    ensures
        shortest(alts) <= longest(alts),
    decreases alts.len(),
{
    if alts.len() > 0 {
        lemma_shortest_below_longest(alts.drop_last());
    }
}

/// No entry is longer than the longest.
pub proof fn lemma_longest_bounds(alts: Seq<Seq<u8>>, i: int)
    requires
        0 <= i < alts.len(),
    ensures
        alts[i].len() <= longest(alts),
    decreases alts.len(),
{
    if i < alts.len() - 1 {
        lemma_longest_bounds(alts.drop_last(), i);
    }
}

/// The length of the longest of `alts`.
pub fn longest_of(alts: &Vec<Vec<u8>>) -> (len: usize)
    ensures
        len == longest(views(alts@)),
{
    let mut len: usize = 0;
    let mut i: usize = 0;
    assert(views(alts@).take(0) =~= Seq::<Seq<u8>>::empty());
    while i < alts.len()
        invariant
            i <= alts@.len(),
            len == longest(views(alts@).take(i as int)),
        decreases alts@.len() - i,
    {
        proof {
            let upto = views(alts@).take(i as int + 1);
            assert(upto.drop_last() =~= views(alts@).take(i as int));
            assert(upto.last() == alts@[i as int]@);
        }
        if alts[i].len() > len {
            len = alts[i].len();
        }
        i += 1;
    }
    assert(views(alts@).take(alts@.len() as int) =~= views(alts@));
    len
}

/// The length of the shortest of `alts`.
pub fn shortest_of(alts: &Vec<Vec<u8>>) -> (len: usize)
    ensures
        len == shortest(views(alts@)),
{
    let mut len: usize = 0;
    let mut i: usize = 0;
    assert(views(alts@).take(0) =~= Seq::<Seq<u8>>::empty());
    while i < alts.len()
        invariant
            i <= alts@.len(),
            len == shortest(views(alts@).take(i as int)),
        decreases alts@.len() - i,
    {
        proof {
            let upto = views(alts@).take(i as int + 1);
            assert(upto.drop_last() =~= views(alts@).take(i as int));
            assert(upto.last() == alts@[i as int]@);
        }
        if i == 0 || alts[i].len() < len {
            len = alts[i].len();
        }
        i += 1;
    }
    assert(views(alts@).take(alts@.len() as int) =~= views(alts@));
    len
}

} // verus!
