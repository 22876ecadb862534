//! Word lists: non-empty byte strings ordered by ascending length.

use vstd::prelude::*;
use crate::lines::{lemma_longest_bounds, lines_of, longest, longest_of, split_lines, views};

verus! {

/// The entries of `words` whose length is exactly `len`, in the order in
/// which `words` holds them.
pub open spec fn of_length(words: Seq<Seq<u8>>, len: nat) -> Seq<Seq<u8>> {
    words.filter(|w: Seq<u8>| w.len() == len)
}

/// The entries of `words` with a length in `1..=upto`, grouped by ascending
/// length; entries of equal length stay in the order of `words`.
pub open spec fn by_length(words: Seq<Seq<u8>>, upto: nat) -> Seq<Seq<u8>>
    decreases upto,
{
    if upto == 0 {
        Seq::empty()
    } else {
        by_length(words, (upto - 1) as nat) + of_length(words, upto)
    }
}

/// The non-empty entries of `words`, shortest first; entries of equal
/// length stay in the order of `words`.
pub open spec fn shortest_first(words: Seq<Seq<u8>>) -> Seq<Seq<u8>> {
    by_length(words, longest(words))
}

/// The entries of one length are entries of `words` and have that length.
pub proof fn lemma_of_length_members(words: Seq<Seq<u8>>, len: nat, k: int)
    requires
        0 <= k < of_length(words, len).len(),
    ensures
        of_length(words, len)[k].len() == len,
        words.contains(of_length(words, len)[k]),
    decreases words.len(),
{
    reveal(Seq::filter);
    if words.len() > 0 {
        let before = of_length(words.drop_last(), len);
        if k < before.len() {
            lemma_of_length_members(words.drop_last(), len, k);
            let i = choose|i: int|
                0 <= i < words.drop_last().len() && words.drop_last()[i] == before[k];
            assert(words[i] == before[k]);
        } else {
            assert(words[words.len() - 1] == words.last());
        }
    }
}

/// Shortest first: in `by_length(words, upto)` the lengths never fall, every
/// entry is an entry of `words`, and none is empty or longer than `upto`.
pub proof fn lemma_by_length_ascending(words: Seq<Seq<u8>>, upto: nat)
    ensures
        forall|i: int|
            0 <= i < by_length(words, upto).len() ==> 1 <= (#[trigger] by_length(
                words,
                upto,
            )[i]).len() <= upto && words.contains(by_length(words, upto)[i]),
        forall|i: int, j: int|
            0 <= i <= j < by_length(words, upto).len() ==> by_length(words, upto)[i].len()
                <= by_length(words, upto)[j].len(),
    decreases upto,
{
    if upto > 0 {
        lemma_by_length_ascending(words, (upto - 1) as nat);
        let head = by_length(words, (upto - 1) as nat);
        let tail = of_length(words, upto);
        let all = by_length(words, upto);
        assert(all == head + tail);
        assert forall|i: int| 0 <= i < all.len() implies 1 <= (#[trigger] all[i]).len() <= upto
            && words.contains(all[i]) && (i < head.len() ==> all[i].len() < upto) && (i
            >= head.len() ==> all[i].len() == upto) by {
            if i < head.len() {
                assert(all[i] == head[i]);
            } else {
                assert(all[i] == tail[i - head.len()]);
                lemma_of_length_members(words, upto, i - head.len());
            }
        }
    }
}

/// Nothing is lost: every entry of `words` that is not empty and no longer
/// than `upto` is in `by_length(words, upto)`.
pub proof fn lemma_by_length_keeps(words: Seq<Seq<u8>>, upto: nat, i: int)
    requires
        0 <= i < words.len(),
        1 <= words[i].len() <= upto,
    ensures
        by_length(words, upto).contains(words[i]),
    decreases upto,
{
    let head = by_length(words, (upto - 1) as nat);
    let tail = of_length(words, upto);
    if words[i].len() == upto {
        words.lemma_filter_contains(|w: Seq<u8>| w.len() == upto, i);
        let k = choose|k: int| 0 <= k < tail.len() && tail[k] == words[i];
        assert((head + tail)[head.len() + k] == words[i]);
    } else {
        lemma_by_length_keeps(words, (upto - 1) as nat, i);
        let k = choose|k: int| 0 <= k < head.len() && head[k] == words[i];
        assert((head + tail)[k] == words[i]);
    }
}

/// A word list holds every word of its file that is not empty, and only
/// words of the file, shortest first.
pub proof fn lemma_shortest_first(words: Seq<Seq<u8>>)
    ensures
        forall|i: int|
            0 <= i < shortest_first(words).len() ==> (#[trigger] shortest_first(words)[i]).len()
                >= 1 && words.contains(shortest_first(words)[i]),
        forall|i: int, j: int|
            0 <= i <= j < shortest_first(words).len() ==> shortest_first(words)[i].len()
                <= shortest_first(words)[j].len(),
        forall|i: int|
            0 <= i < words.len() && words[i].len() >= 1 ==> shortest_first(words).contains(
                #[trigger] words[i],
            ),
{
    lemma_by_length_ascending(words, longest(words));
    assert forall|i: int| 0 <= i < words.len() && words[i].len() >= 1 implies shortest_first(
        words,
    ).contains(#[trigger] words[i]) by {
        lemma_longest_bounds(words, i);
        lemma_by_length_keeps(words, longest(words), i);
    }
}

/// A list of words, shortest first.
#[derive(Debug)]
pub struct Wordlist {
    words: Vec<Vec<u8>>,
}

impl Wordlist {
    /// The words in order.
    pub closed spec fn view(&self) -> Seq<Seq<u8>> {
        views(self.words@)
    }

    /// Builds the list held by `data`, the contents of a word file: one word
    /// per line, empty lines skipped, then ordered stably by ascending length.
    pub fn from_file(data: &[u8]) -> (out: Wordlist)
        ensures
            out@ == shortest_first(lines_of(data@)),
    {
        let lines = split_lines(data);
        let longest = longest_of(&lines);
        let mut words: Vec<Vec<u8>> = Vec::new();
        let mut len: usize = 0;
        assert(views(words@) =~= by_length(views(lines@), 0));
        while len < longest
            invariant
                len <= longest,
                views(words@) == by_length(views(lines@), len as nat),
            decreases longest - len,
        {
            len += 1;
            let ghost before = views(words@);
            let mut k: usize = 0;
            assert(views(lines@).take(0) =~= Seq::<Seq<u8>>::empty());
            assert(views(words@) =~= before + of_length(views(lines@).take(0), len as nat));
            while k < lines.len()
                invariant
                    k <= lines.len(),
                    views(words@) == before + of_length(views(lines@).take(k as int), len as nat),
                decreases lines.len() - k,
            {
                let ghost all = views(lines@);
                let ghost sofar = views(words@);
                proof {
                    assert(all.take(k as int + 1) =~= all.take(k as int).push(all[k as int]));
                    assert(all.take(k as int + 1).drop_last() =~= all.take(k as int));
                    reveal(Seq::filter);
                }
                if lines[k].len() == len {
                    let word = lines[k].clone();
                    assert(word@ == lines[k as int]@);
                    words.push(word);
                    assert(views(words@) =~= sofar.push(all[k as int]));
                }
                k += 1;
            }
            assert(views(lines@).take(lines.len() as int) =~= views(lines@));
        }
        Wordlist { words }
    }

    /// The number of words.
    pub fn len(&self) -> (n: usize)
        ensures
            n == self@.len(),
    {
        self.words.len()
    }

    /// The word at `index`.
    pub fn index(&self, index: usize) -> (word: &Vec<u8>)
        requires
            index < self@.len(),
        ensures
            word@ == self@[index as int],
    {
        &self.words[index]
    }
}

} // verus!
