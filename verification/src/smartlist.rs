//! The smartlist index: a ranked vocabulary of subwords.
//!
//! Entries are ranked by load order starting at 1. Every single byte has a
//! rank: one that was never loaded gets the rank after the last loaded entry,
//! so a password can always be cut into known pieces.

use vstd::prelude::*;
use crate::lines::{split_lines, lines_of, views};

verus! {

/// The index of the first entry of `words` at or after `from` that equals
/// `key`.
pub open spec fn position_from(words: Seq<Seq<u8>>, key: Seq<u8>, from: int) -> Option<int>
    decreases words.len() - from,
{
    if from >= words.len() {
        None
    } else if words[from] == key {
        Some(from)
    } else {
        position_from(words, key, from + 1)
    }
}

/// The rank of `key` in a smartlist loaded with `words`: one more than the
/// index of its first occurrence; for a single byte that was not loaded, one
/// more than the number of loaded entries; otherwise none.
pub open spec fn rank_of(words: Seq<Seq<u8>>, key: Seq<u8>) -> Option<nat> {
    match position_from(words, key, 0) {
        Some(i) => Some((i + 1) as nat),
        None => if key.len() == 1 {
            Some(words.len() + 1)
        } else {
            None
        },
    }
}

/// The lines of all `files`, in the order of the files.
pub open spec fn merged_lines(files: Seq<Seq<u8>>) -> Seq<Seq<u8>>
    decreases files.len(),
{
    if files.len() == 0 {
        Seq::empty()
    } else {
        merged_lines(files.drop_last()) + lines_of(files.last())
    }
}

/// What `position_from` finds: an occurrence with none before it, or no
/// occurrence at all.
pub proof fn lemma_position_from(words: Seq<Seq<u8>>, key: Seq<u8>, from: int)
    requires
        0 <= from,
    ensures
        match position_from(words, key, from) {
            Some(i) => from <= i < words.len() && words[i] == key && forall|j: int|
                from <= j < i ==> words[j] != key,
            None => forall|j: int| from <= j < words.len() ==> words[j] != key,
        },
    decreases words.len() - from,
{
    if from < words.len() && words[from] != key {
        lemma_position_from(words, key, from + 1);
    }
}

/// Whether two byte strings are equal.
pub fn bytes_equal(a: &[u8], b: &[u8]) -> (same: bool)
    ensures
        same == (a@ == b@),
{
    if a.len() != b.len() {
        return false;
    }
    let mut i: usize = 0;
    while i < a.len()
        invariant
            i <= a@.len(),
            a@.len() == b@.len(),
            forall|j: int| 0 <= j < i ==> a@[j] == b@[j],
        decreases a@.len() - i,
    {
        if a[i] != b[i] {
            return false;
        }
        i += 1;
    }
    assert(a@ =~= b@);
    true
}

/// A smartlist: the loaded entries in rank order.
#[derive(Debug)]
pub struct Smartlist {
    words: Vec<Vec<u8>>,
}

impl Smartlist {
    /// The loaded entries; the entry at index `i` was loaded as number `i + 1`.
    pub closed spec fn view(&self) -> Seq<Seq<u8>> {
        views(self.words@)
    }

    /// Every rank fits in a machine word.
    #[verifier::type_invariant]
    spec fn wf(&self) -> bool {
        self.words@.len() < usize::MAX
    }

    /// Loads the contents of smartlist files, ranks running on from one file
    /// to the next. Fails only when the ranks would not fit in a machine
    /// word.
    pub fn from_files(files: &Vec<Vec<u8>>) -> (out: Option<Smartlist>)
        ensures
            out is Some <==> merged_lines(views(files@)).len() < usize::MAX,
            out is Some ==> out.unwrap()@ == merged_lines(views(files@)),
    {
        let mut words: Vec<Vec<u8>> = Vec::new();
        let mut f: usize = 0;
        assert(views(files@).take(0) =~= Seq::<Seq<u8>>::empty());
        assert(views(words@) =~= merged_lines(views(files@).take(0)));
        while f < files.len()
            invariant
                f <= files.len(),
                views(words@) == merged_lines(views(files@).take(f as int)),
            decreases files.len() - f,
        {
            let mut lines = split_lines(files[f].as_slice());
            proof {
                let upto = views(files@).take(f as int + 1);
                assert(upto.drop_last() =~= views(files@).take(f as int));
                assert(upto.last() == files[f as int]@);
                assert(views(lines@).len() == lines@.len());
            }
            let ghost before = views(words@);
            let ghost added = views(lines@);
            words.append(&mut lines);
            assert(views(words@) =~= before + added);
            f += 1;
        }
        assert(views(files@).take(files@.len() as int) =~= views(files@));
        if words.len() < usize::MAX {
            Some(Smartlist { words })
        } else {
            None
        }
    }

    /// Loads the contents of one smartlist file.
    pub fn from_bytes(data: &[u8]) -> (out: Option<Smartlist>)
        ensures
            out is Some <==> lines_of(data@).len() < usize::MAX,
            out is Some ==> out.unwrap()@ == lines_of(data@),
    {
        let words = split_lines(data);
        if words.len() < usize::MAX {
            Some(Smartlist { words })
        } else {
            None
        }
    }

    /// The number of loaded entries.
    pub fn len(&self) -> (n: usize)
        ensures
            n == self@.len(),
            n < usize::MAX,
    {
        proof {
            use_type_invariant(self);
        }
        self.words.len()
    }

    /// The rank of `key`.
    pub fn rank(&self, key: &[u8]) -> (r: Option<usize>)
        ensures
            r is Some <==> rank_of(self@, key@) is Some,
            r is Some ==> r.unwrap() == rank_of(self@, key@).unwrap(),
            r is Some ==> 1 <= r.unwrap() <= self@.len() + 1,
    {
        proof {
            use_type_invariant(self);
            lemma_position_from(self@, key@, 0);
        }
        let mut i: usize = 0;
        while i < self.words.len()
            invariant
                i <= self.words@.len(),
                self.words@.len() < usize::MAX,
                position_from(self@, key@, 0) == position_from(self@, key@, i as int),
            decreases self.words@.len() - i,
        {
            assert(self@[i as int] == self.words@[i as int]@);
            if bytes_equal(self.words[i].as_slice(), key) {
                return Some(i + 1);
            }
            i += 1;
        }
        if key.len() == 1 {
            Some(self.words.len() + 1)
        } else {
            None
        }
    }
}

/// A byte that was not loaded on its own ranks right after the last loaded
/// entry; one that was loaded keeps the rank of its first occurrence, which
/// is lower.
pub proof fn lemma_fallback_rank(words: Seq<Seq<u8>>, b: u8)
    ensures
        rank_of(words, seq![b]) is Some,
        !words.contains(seq![b]) ==> rank_of(words, seq![b]) == Some(words.len() + 1),
        words.contains(seq![b]) ==> rank_of(words, seq![b]).unwrap() <= words.len(),
{
    lemma_position_from(words, seq![b], 0);
    if words.contains(seq![b]) {
        let i = choose|i: int| 0 <= i < words.len() && words[i] == seq![b];
        assert(words[i] == seq![b]);
    }
}

} // verus!
