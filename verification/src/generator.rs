//! The word generator: every expansion of a mask, in odometer order.
//!
//! Each slot of the mask offers a list of alternatives. An index tuple picks
//! one alternative per slot; the word of a tuple is the concatenation of its
//! picks. Tuples are numbered as a mixed-radix counter whose rightmost digit
//! moves fastest, and words come out in the order of these numbers, those
//! with a length outside the window left out.

use vstd::prelude::*;
use vstd::arithmetic::div_mod::lemma_fundamental_div_mod_converse;
use crate::charsets::{
    all_bytes, all_bytes_table, digits, digits_table, lower, lower_table, printable,
    printable_table, symbols, symbols_table, upper, upper_table,
};
use crate::lines::{
    copy_range, NEWLINE, lemma_shortest_below_longest, longest, longest_of, shortest, shortest_of, views,
};
use crate::counting::{count_window, lemma_count_is_walked, walked, window_count};
use crate::mask::{parse_mask, slot_in_range, slots_of, GenError, Slot};
use crate::wordlists::Wordlist;

verus! {

/// Each byte of `charset` as a one-byte word.
pub open spec fn singles(charset: Seq<u8>) -> Seq<Seq<u8>> {
    Seq::new(charset.len(), |i: int| seq![charset[i]])
}

/// The alternatives of a slot, in the order in which it offers them.
pub open spec fn slot_values(
    slot: Slot,
    charsets: Seq<Seq<u8>>,
    wordlists: Seq<Seq<Seq<u8>>>,
) -> Seq<Seq<u8>> {
    match slot {
        Slot::Literal(b) => seq![seq![b]],
        Slot::Digits => singles(digits()),
        Slot::Lower => singles(lower()),
        Slot::Upper => singles(upper()),
        Slot::Symbols => singles(symbols()),
        Slot::Printable => singles(printable()),
        Slot::Bytes => singles(all_bytes()),
        Slot::Custom(k) => singles(charsets[k as int]),
        Slot::Words(k) => wordlists[k as int],
    }
}

/// The alternatives of every slot of a mask.
pub open spec fn table_of(
    slots: Seq<Slot>,
    charsets: Seq<Seq<u8>>,
    wordlists: Seq<Seq<Seq<u8>>>,
) -> Seq<Seq<Seq<u8>>> {
    Seq::new(slots.len(), |i: int| slot_values(slots[i], charsets, wordlists))
}

/// The views of a vector of wordlists.
pub open spec fn lists_view(wordlists: Seq<Wordlist>) -> Seq<Seq<Seq<u8>>> {
    Seq::new(wordlists.len(), |i: int| wordlists[i]@)
}

/// The view of a table of alternatives.
pub open spec fn table_view(table: Seq<Vec<Vec<u8>>>) -> Seq<Seq<Seq<u8>>> {
    Seq::new(table.len(), |i: int| views(table[i]@))
}

/// The number of index tuples over the first `n` slots: the product of their
/// sizes.
pub open spec fn total(table: Seq<Seq<Seq<u8>>>, n: nat) -> nat
    decreases n,
{
    if n == 0 {
        1
    } else {
        total(table, (n - 1) as nat) * table[n - 1].len()
    }
}

/// The word number `k` over the first `n` slots: the last slot moves
/// fastest, so its pick is `k` modulo its size, and the slots before it spell
/// the word number `k` divided by its size.
pub open spec fn word_at(table: Seq<Seq<Seq<u8>>>, n: nat, k: int) -> Seq<u8>
    decreases n,
{
    if n == 0 {
        Seq::empty()
    } else {
        let size = table[n - 1].len() as int;
        word_at(table, (n - 1) as nat, k / size) + table[n - 1][k % size]
    }
}

/// Whether a length lies in the window `lo..=hi`.
pub open spec fn in_window(len: nat, lo: usize, hi: usize) -> bool {
    lo <= len <= hi
}

/// The number of the first word at or after `from` whose length lies in the
/// window.
pub open spec fn next_hit(table: Seq<Seq<Seq<u8>>>, lo: usize, hi: usize, from: nat) -> Option<
    nat,
>
    decreases total(table, table.len()) - from,
{
    if from >= total(table, table.len()) {
        None
    } else if in_window(word_at(table, table.len(), from as int).len(), lo, hi) {
        Some(from)
    } else {
        next_hit(table, lo, hi, from + 1)
    }
}

/// The words that come out from the word number `from` on, in order: those
/// whose length lies in the window.
pub open spec fn emitted(table: Seq<Seq<Seq<u8>>>, lo: usize, hi: usize, from: nat) -> Seq<
    Seq<u8>,
>
    decreases total(table, table.len()) - from,
{
    if from >= total(table, table.len()) {
        Seq::empty()
    } else {
        let word = word_at(table, table.len(), from as int);
        let here = if in_window(word.len(), lo, hi) {
            seq![word]
        } else {
            Seq::empty()
        };
        here + emitted(table, lo, hi, from + 1)
    }
}

/// The next word found is the first of the words that come out, and the
/// rest come out after it; when none is found, none comes out.
pub proof fn lemma_next_hit_emitted(table: Seq<Seq<Seq<u8>>>, lo: usize, hi: usize, from: nat)
    ensures
        match next_hit(table, lo, hi, from) {
            Some(k) => emitted(table, lo, hi, from) == seq![word_at(table, table.len(), k as int)]
                + emitted(table, lo, hi, k + 1),
            None => emitted(table, lo, hi, from) == Seq::<Seq<u8>>::empty(),
        },
    decreases total(table, table.len()) - from,
{
    if from < total(table, table.len()) {
        lemma_next_hit_emitted(table, lo, hi, from + 1);
        let word = word_at(table, table.len(), from as int);
        if !in_window(word.len(), lo, hi) {
            assert(Seq::<Seq<u8>>::empty() + emitted(table, lo, hi, from + 1) =~= emitted(
                table,
                lo,
                hi,
                from + 1,
            ));
        }
    }
}

/// Whether `counters` holds one valid pick per slot.
pub open spec fn in_range(table: Seq<Seq<Seq<u8>>>, counters: Seq<usize>) -> bool {
    &&& counters.len() == table.len()
    &&& forall|i: int| 0 <= i < table.len() ==> #[trigger] counters[i] < table[i].len()
}

/// The number of the tuple `counters` over the first `n` slots.
pub open spec fn value(table: Seq<Seq<Seq<u8>>>, counters: Seq<usize>, n: nat) -> nat
    decreases n,
{
    if n == 0 {
        0
    } else {
        value(table, counters, (n - 1) as nat) * table[n - 1].len() + counters[n - 1] as nat
    }
}

/// The word that the first `n` picks of `counters` spell.
pub open spec fn word_of(table: Seq<Seq<Seq<u8>>>, counters: Seq<usize>, n: nat) -> Seq<u8>
    decreases n,
{
    if n == 0 {
        Seq::empty()
    } else {
        word_of(table, counters, (n - 1) as nat) + table[n - 1][counters[n - 1] as int]
    }
}

/// The product of the sizes of the slots `i + 1..n`: how many words pass
/// while the pick of slot `i` stays.
pub open spec fn stride(table: Seq<Seq<Seq<u8>>>, n: nat, i: nat) -> nat
    decreases n,
{
    if n <= i + 1 {
        1
    } else {
        stride(table, (n - 1) as nat, i) * table[n - 1].len()
    }
}

/// The greatest length that a word over the first `n` slots can have.
pub open spec fn reach(table: Seq<Seq<Seq<u8>>>, n: nat) -> nat
    decreases n,
{
    if n == 0 {
        0
    } else {
        reach(table, (n - 1) as nat) + longest(table[n - 1])
    }
}

/// The least length that a word over the first `n` slots can have.
pub open spec fn least(table: Seq<Seq<Seq<u8>>>, n: nat) -> nat
    decreases n,
{
    if n == 0 {
        0
    } else {
        least(table, (n - 1) as nat) + shortest(table[n - 1])
    }
}

/// The least length is no greater than the reach.
pub proof fn lemma_least_below_reach(table: Seq<Seq<Seq<u8>>>, n: nat)
    ensures
        least(table, n) <= reach(table, n),
    decreases n,
{
    if n > 0 {
        lemma_least_below_reach(table, (n - 1) as nat);
        lemma_shortest_below_longest(table[n - 1]);
    }
}

/// A valid tuple has a number below the number of tuples.
pub proof fn lemma_value_below_total(table: Seq<Seq<Seq<u8>>>, counters: Seq<usize>, n: nat)
    requires
        in_range(table, counters),
        n <= table.len(),
    ensures
        value(table, counters, n) < total(table, n),
    decreases n,
{
    if n > 0 {
        lemma_value_below_total(table, counters, (n - 1) as nat);
        let v = value(table, counters, (n - 1) as nat) as int;
        let t = total(table, (n - 1) as nat) as int;
        let s = table[n - 1].len() as int;
        let c = counters[n - 1] as int;
        assert(v * s + c < t * s) by (nonlinear_arith)
            requires
                0 <= v < t,
                0 <= c < s,
        ;
    }
}

/// The word of a tuple is the word at the tuple's number.
pub proof fn lemma_word_of_value(table: Seq<Seq<Seq<u8>>>, counters: Seq<usize>, n: nat)
    requires
        in_range(table, counters),
        n <= table.len(),
    ensures
        word_of(table, counters, n) == word_at(table, n, value(table, counters, n) as int),
    decreases n,
{
    if n > 0 {
        lemma_word_of_value(table, counters, (n - 1) as nat);
        let v = value(table, counters, (n - 1) as nat) as int;
        let s = table[n - 1].len() as int;
        let c = counters[n - 1] as int;
        lemma_fundamental_div_mod_converse(v * s + c, s, v, c);
    }
}

/// Odometer carry: in the tuple with number `k`, the pick of slot `i` is
/// `k` divided by the product of the sizes of the slots after `i`, modulo
/// the size of slot `i`.
pub proof fn lemma_odometer_digit(
    table: Seq<Seq<Seq<u8>>>,
    counters: Seq<usize>,
    n: nat,
    i: nat,
)
    requires
        in_range(table, counters),
        i < n <= table.len(),
    ensures
        stride(table, n, i) > 0,
        counters[i as int] == (value(table, counters, n) as int / stride(table, n, i) as int)
            % table[i as int].len() as int,
    decreases n,
{
    let s = table[n - 1].len() as int;
    let c = counters[n - 1] as int;
    let v = value(table, counters, (n - 1) as nat) as int;
    let x = value(table, counters, n) as int;
    assert(x == v * s + c);
    lemma_fundamental_div_mod_converse(x, s, v, c);
    if n == i + 1 {
        assert(stride(table, n, i) == 1);
        assert(x / 1 == x);
    } else {
        lemma_odometer_digit(table, counters, (n - 1) as nat, i);
        let w = stride(table, (n - 1) as nat, i) as int;
        assert(w * s > 0 && s * w == w * s) by (nonlinear_arith)
            requires
                w > 0,
                s > 0,
        ;
        assert(0 <= x) by (nonlinear_arith)
            requires
                x == v * s + c,
                v >= 0,
                s > 0,
                c >= 0,
        ;
        vstd::arithmetic::div_mod::lemma_div_denominator(x, s, w);
        assert(stride(table, n, i) == w * s);
        assert(x / (s * w) == (x / s) / w);
    }
}

/// Tuples that agree on the first `n` picks have the same number there.
pub proof fn lemma_value_agrees(
    table: Seq<Seq<Seq<u8>>>,
    a: Seq<usize>,
    b: Seq<usize>,
    n: nat,
)
    requires
        n <= a.len(),
        n <= b.len(),
        forall|j: int| 0 <= j < n ==> a[j] == b[j],
    ensures
        value(table, a, n) == value(table, b, n),
    decreases n,
{
    if n > 0 {
        lemma_value_agrees(table, a, b, (n - 1) as nat);
    }
}

/// Raising the pick of slot `at` by one while every later pick falls from
/// its last alternative to its first raises the tuple's number by one.
pub proof fn lemma_carry(
    table: Seq<Seq<Seq<u8>>>,
    before: Seq<usize>,
    after: Seq<usize>,
    at: nat,
    n: nat,
)
    requires
        at < n,
        n <= before.len(),
        n <= after.len(),
        n <= table.len(),
        forall|j: int| 0 <= j < at ==> after[j] == before[j],
        after[at as int] == before[at as int] + 1,
        forall|j: int|
            at < j < n ==> before[j] + 1 == (#[trigger] table[j]).len() && after[j] == 0,
    ensures
        value(table, after, n) == value(table, before, n) + 1,
    decreases n,
{
    if n == at + 1 {
        lemma_value_agrees(table, after, before, at);
    } else {
        lemma_carry(table, before, after, at, (n - 1) as nat);
        let v = value(table, before, (n - 1) as nat) as int;
        let s = table[n - 1].len() as int;
        assert((v + 1) * s == v * s + s) by (nonlinear_arith);
    }
}

/// The tuple of all last alternatives has the last number.
pub proof fn lemma_last_tuple(table: Seq<Seq<Seq<u8>>>, counters: Seq<usize>, n: nat)
    requires
        n <= counters.len(),
        n <= table.len(),
        forall|j: int| 0 <= j < n ==> counters[j] + 1 == (#[trigger] table[j]).len(),
    ensures
        value(table, counters, n) + 1 == total(table, n),
    decreases n,
{
    if n > 0 {
        lemma_last_tuple(table, counters, (n - 1) as nat);
        let v = value(table, counters, (n - 1) as nat) as int;
        let s = table[n - 1].len() as int;
        assert((v + 1) * s == v * s + s) by (nonlinear_arith);
    }
}

/// With an empty slot there is no tuple.
pub proof fn lemma_empty_slot(table: Seq<Seq<Seq<u8>>>, at: nat, n: nat)
    requires
        at < n <= table.len(),
        table[at as int].len() == 0,
    ensures
        total(table, n) == 0,
    decreases n,
{
    if n > at + 1 {
        lemma_empty_slot(table, at, (n - 1) as nat);
        let s = table[n - 1].len() as int;
        assert(0 * s == 0) by (nonlinear_arith);
    } else {
        let t = total(table, at) as int;
        assert(t * 0 == 0) by (nonlinear_arith);
    }
}

/// The reach never shrinks as slots are added.
pub proof fn lemma_reach_grows(table: Seq<Seq<Seq<u8>>>, m: nat, n: nat)
    requires
        m <= n,
    ensures
        reach(table, m) <= reach(table, n),
    decreases n,
{
    if m < n {
        lemma_reach_grows(table, m, (n - 1) as nat);
    }
}

/// The window of lengths that a generator lets through, from the bounds it
/// was asked for.
///
/// An unset minimum is 0 and an unset maximum is the reach of the mask. The
/// bounds are refused when the minimum lies above the maximum, when a bound
/// lies above the reach, when the maximum lies below the least length of a
/// word, or when the reach does not fit in a machine word.
pub open spec fn window_of(
    table: Seq<Seq<Seq<u8>>>,
    min_len: Option<usize>,
    max_len: Option<usize>,
) -> Result<(usize, usize), GenError> {
    let top = reach(table, table.len());
    let hi = match max_len {
        Some(m) => m as nat,
        None => top,
    };
    let lo = match min_len {
        Some(m) => m as nat,
        None => 0,
    };
    if top >= usize::MAX || hi > top || lo > hi || hi < least(table, table.len()) {
        Err(GenError::Bounds)
    } else {
        Ok((lo as usize, hi as usize))
    }
}

/// What a generator starts from: the alternatives of each slot of `mask` and
/// the window of lengths, or the first error, that of the mask before that
/// of the bounds.
pub open spec fn setup_of(
    mask: Seq<u8>,
    min_len: Option<usize>,
    max_len: Option<usize>,
    charsets: Seq<Seq<u8>>,
    wordlists: Seq<Seq<Seq<u8>>>,
) -> Result<(Seq<Seq<Seq<u8>>>, usize, usize), GenError> {
    match slots_of(mask, charsets.len(), wordlists.len()) {
        Err(e) => Err(e),
        Ok(slots) => {
            let table = table_of(slots, charsets, wordlists);
            match window_of(table, min_len, max_len) {
                Err(e) => Err(e),
                Ok((lo, hi)) => Ok((table, lo, hi)),
            }
        },
    }
}

/// Each byte of `charset` as a one-byte word.
pub fn singles_of(charset: &[u8]) -> (out: Vec<Vec<u8>>)
    ensures
        views(out@) == singles(charset@),
{
    let mut out: Vec<Vec<u8>> = Vec::new();
    let mut i: usize = 0;
    while i < charset.len()
        invariant
            i <= charset@.len(),
            out@.len() == i,
            forall|j: int| 0 <= j < i ==> (#[trigger] out@[j])@ == seq![charset@[j]],
        decreases charset@.len() - i,
    {
        let mut word: Vec<u8> = Vec::new();
        word.push(charset[i]);
        assert(word@ =~= seq![charset@[i as int]]);
        out.push(word);
        i += 1;
    }
    assert(views(out@) =~= singles(charset@));
    out
}

/// The alternatives of `slot`.
pub fn slot_alternatives(slot: Slot, charsets: &Vec<Vec<u8>>, wordlists: &Vec<Wordlist>) -> (out:
    Vec<Vec<u8>>)
    requires
        slot_in_range(slot, charsets@.len(), wordlists@.len()),
    ensures
        views(out@) == slot_values(slot, views(charsets@), lists_view(wordlists@)),
{
    match slot {
        Slot::Literal(b) => {
            let mut word: Vec<u8> = Vec::new();
            word.push(b);
            let mut out: Vec<Vec<u8>> = Vec::new();
            out.push(word);
            assert(views(out@) =~= seq![seq![b]]);
            out
        },
        Slot::Digits => singles_of(digits_table().as_slice()),
        Slot::Lower => singles_of(lower_table().as_slice()),
        Slot::Upper => singles_of(upper_table().as_slice()),
        Slot::Symbols => singles_of(symbols_table().as_slice()),
        Slot::Printable => singles_of(printable_table().as_slice()),
        Slot::Bytes => singles_of(all_bytes_table().as_slice()),
        Slot::Custom(k) => singles_of(charsets[k].as_slice()),
        Slot::Words(k) => {
            let list = &wordlists[k];
            let mut out: Vec<Vec<u8>> = Vec::new();
            let mut i: usize = 0;
            while i < list.len()
                invariant
                    i <= list@.len(),
                    out@.len() == i,
                    forall|j: int| 0 <= j < i ==> (#[trigger] out@[j])@ == list@[j],
                decreases list@.len() - i,
            {
                let word = list.index(i);
                out.push(copy_range(word.as_slice(), 0, word.len()));
                assert(word@.subrange(0, word@.len() as int) =~= word@);
                i += 1;
            }
            assert(views(out@) =~= list@);
            out
        },
    }
}

/// The alternatives of every slot.
pub fn build_table(slots: &Vec<Slot>, charsets: &Vec<Vec<u8>>, wordlists: &Vec<Wordlist>) -> (out:
    Vec<Vec<Vec<u8>>>)
    requires
        forall|i: int|
            0 <= i < slots@.len() ==> slot_in_range(
                #[trigger] slots@[i],
                charsets@.len(),
                wordlists@.len(),
            ),
    ensures
        table_view(out@) == table_of(slots@, views(charsets@), lists_view(wordlists@)),
{
    let mut out: Vec<Vec<Vec<u8>>> = Vec::new();
    let mut i: usize = 0;
    while i < slots.len()
        invariant
            i <= slots@.len(),
            out@.len() == i,
            forall|j: int|
                0 <= j < slots@.len() ==> slot_in_range(
                    #[trigger] slots@[j],
                    charsets@.len(),
                    wordlists@.len(),
                ),
            forall|j: int|
                0 <= j < i ==> views((#[trigger] out@[j])@) == slot_values(
                    slots@[j],
                    views(charsets@),
                    lists_view(wordlists@),
                ),
        decreases slots@.len() - i,
    {
        out.push(slot_alternatives(slots[i], charsets, wordlists));
        i += 1;
    }
    assert(table_view(out@) =~= table_of(slots@, views(charsets@), lists_view(wordlists@)));
    out
}

/// The reach of a table, when it fits in a machine word with room to spare.
pub fn reach_of(table: &Vec<Vec<Vec<u8>>>) -> (out: Option<usize>)
    ensures
        match out {
            Some(top) => top == reach(table_view(table@), table@.len()) && top < usize::MAX,
            None => reach(table_view(table@), table@.len()) >= usize::MAX,
        },
{
    let mut top: usize = 0;
    let mut i: usize = 0;
    while i < table.len()
        invariant
            i <= table@.len(),
            top == reach(table_view(table@), i as nat),
            top < usize::MAX,
        decreases table@.len() - i,
    {
        let len = longest_of(&table[i]);
        assert(table_view(table@)[i as int] == views(table@[i as int]@));
        if len >= usize::MAX - top {
            proof {
                lemma_reach_grows(table_view(table@), (i + 1) as nat, table@.len());
            }
            return None;
        }
        top = top + len;
        i += 1;
    }
    Some(top)
}

/// The least length of a word of a table whose reach fits in a machine word.
pub fn least_of(table: &Vec<Vec<Vec<u8>>>) -> (out: usize)
    requires
        reach(table_view(table@), table@.len()) < usize::MAX,
    ensures
        out == least(table_view(table@), table@.len()),
{
    let mut bottom: usize = 0;
    let mut i: usize = 0;
    while i < table.len()
        invariant
            i <= table@.len(),
            bottom == least(table_view(table@), i as nat),
            reach(table_view(table@), table@.len()) < usize::MAX,
        decreases table@.len() - i,
    {
        let len = shortest_of(&table[i]);
        assert(table_view(table@)[i as int] == views(table@[i as int]@));
        proof {
            lemma_least_below_reach(table_view(table@), (i + 1) as nat);
            lemma_reach_grows(table_view(table@), (i + 1) as nat, table@.len());
        }
        bottom = bottom + len;
        i += 1;
    }
    bottom
}

/// A generator: the alternatives of each slot of a mask, a window of
/// lengths, and the counters of the next tuple to look at.
#[derive(Debug)]
pub struct WordGenerator {
    table: Vec<Vec<Vec<u8>>>,
    lo: usize,
    hi: usize,
    counters: Vec<usize>,
    done: bool,
}

impl WordGenerator {
    /// The alternatives of each slot.
    pub closed spec fn table(&self) -> Seq<Seq<Seq<u8>>> {
        table_view(self.table@)
    }

    /// The least length that is let through.
    pub closed spec fn lo(&self) -> usize {
        self.lo
    }

    /// The greatest length that is let through.
    pub closed spec fn hi(&self) -> usize {
        self.hi
    }

    /// The picks of the next tuple to look at.
    pub closed spec fn counters(&self) -> Seq<usize> {
        self.counters@
    }

    /// Whether every tuple has been looked at.
    pub closed spec fn exhausted(&self) -> bool {
        self.done
    }

    /// The number of the next tuple to look at; the number of tuples when
    /// none is left.
    pub open spec fn position(&self) -> nat {
        if self.exhausted() {
            total(self.table(), self.table().len())
        } else {
            value(self.table(), self.counters(), self.table().len())
        }
    }

    /// The words that the generator has yet to hand out, in order.
    pub open spec fn remaining(&self) -> Seq<Seq<u8>> {
        emitted(self.table(), self.lo(), self.hi(), self.position())
    }

    /// The counters hold one pick per slot, valid while tuples are left, and
    /// the window leaves room above it.
    pub open spec fn wf(&self) -> bool {
        &&& self.counters().len() == self.table().len()
        &&& !self.exhausted() ==> in_range(self.table(), self.counters())
        &&& self.hi() < usize::MAX
    }

    /// Whether the generator stands before the first word of `setup`.
    pub open spec fn starts_from(&self, setup: (Seq<Seq<Seq<u8>>>, usize, usize)) -> bool {
        &&& self.wf()
        &&& self.table() == setup.0
        &&& self.lo() == setup.1
        &&& self.hi() == setup.2
        &&& self.position() == 0
    }

    /// Sets up the generator of `mask` with the given length bounds, custom
    /// charsets and wordlists, before its first word.
    pub fn new(
        mask: &[u8],
        min_len: Option<usize>,
        max_len: Option<usize>,
        charsets: &Vec<Vec<u8>>,
        wordlists: &Vec<Wordlist>,
    ) -> (out: Result<WordGenerator, GenError>)
        ensures
            match setup_of(mask@, min_len, max_len, views(charsets@), lists_view(wordlists@)) {
                Err(e) => out == Err::<WordGenerator, GenError>(e),
                Ok(setup) => out is Ok && out.unwrap().starts_from(setup),
            },
    {
        let slots = match parse_mask(mask, charsets.len(), wordlists.len()) {
            Ok(slots) => slots,
            Err(e) => {
                return Err(e);
            },
        };
        let table = build_table(&slots, charsets, wordlists);
        let top = match reach_of(&table) {
            Some(top) => top,
            None => {
                return Err(GenError::Bounds);
            },
        };
        let hi = match max_len {
            Some(m) => m,
            None => top,
        };
        let lo = match min_len {
            Some(m) => m,
            None => 0,
        };
        if hi > top || lo > hi || hi < least_of(&table) {
            return Err(GenError::Bounds);
        }
        let mut counters: Vec<usize> = Vec::new();
        let mut done = false;
        let mut i: usize = 0;
        let ghost shape = table_view(table@);
        while i < table.len()
            invariant
                i <= table@.len(),
                shape == table_view(table@),
                counters@.len() == i,
                forall|j: int| 0 <= j < i ==> #[trigger] counters@[j] == 0,
                !done ==> forall|j: int| 0 <= j < i ==> (#[trigger] shape[j]).len() > 0,
                done ==> total(shape, shape.len()) == 0,
            decreases table@.len() - i,
        {
            if table[i].len() == 0 {
                done = true;
                proof {
                    assert(shape[i as int].len() == 0);
                    lemma_empty_slot(shape, i as nat, shape.len());
                }
            }
            counters.push(0);
            i += 1;
        }
        proof {
            if !done {
                lemma_first_tuple(shape, counters@, shape.len());
            }
        }
        Ok(WordGenerator { table, lo, hi, counters, done })
    }

    /// The number of words that the generator emits in all, counted slot by
    /// slot without walking them: the number of index tuples whose word has a
    /// length in the window. Nothing is returned when the number of all
    /// index tuples does not fit in 64 bits.
    pub fn combinations(&self) -> (out: Option<u64>)
        requires
            self.wf(),
        ensures
            out is None <==> total(self.table(), self.table().len()) > u64::MAX,
            out is Some ==> out.unwrap() == window_count(
                self.table(),
                self.table().len(),
                self.lo() as int,
                self.hi() as int,
            ),
            out is Some ==> out.unwrap() == walked(
                self.table(),
                self.table().len(),
                self.lo() as int,
                self.hi() as int,
                total(self.table(), self.table().len()),
            ),
    {
        proof {
            lemma_count_is_walked(
                self.table(),
                self.table().len(),
                self.lo() as int,
                self.hi() as int,
            );
        }
        count_window(&self.table, self.lo, self.hi)
    }

    /// The word of the current tuple.
    fn current_word(&self) -> (word: Vec<u8>)
        requires
            self.wf(),
            !self.exhausted(),
        ensures
            word@ == word_at(self.table(), self.table().len(), self.position() as int),
    {
        let mut word: Vec<u8> = Vec::new();
        let mut i: usize = 0;
        while i < self.table.len()
            invariant
                self.wf(),
                !self.exhausted(),
                i <= self.table@.len(),
                word@ == word_of(self.table(), self.counters(), i as nat),
            decreases self.table@.len() - i,
        {
            let pick = &self.table[i][self.counters[i]];
            assert(pick@ == self.table()[i as int][self.counters()[i as int] as int]);
            word.extend_from_slice(pick.as_slice());
            i += 1;
        }
        proof {
            lemma_word_of_value(self.table(), self.counters(), self.table().len());
        }
        word
    }

    /// Moves the counters to the next tuple: the rightmost pick that is not
    /// the last of its slot goes up by one and every pick right of it returns
    /// to the first alternative. Past the last tuple the generator is
    /// exhausted.
    fn advance(&mut self)
        requires
            old(self).wf(),
            !old(self).exhausted(),
        ensures
            final(self).wf(),
            final(self).table() == old(self).table(),
            final(self).lo() == old(self).lo(),
            final(self).hi() == old(self).hi(),
            final(self).position() == old(self).position() + 1,
    {
        let ghost table = self.table();
        let ghost start = self.counters@;
        let n = self.counters.len();
        let mut i: usize = n;
        while i > 0
            invariant
                i <= n,
                n == table.len(),
                self.table() == table,
                table == old(self).table(),
                start == old(self).counters(),
                !old(self).exhausted(),
                self.lo == old(self).lo,
                self.hi == old(self).hi,
                self.hi < usize::MAX,
                !self.done,
                in_range(table, start),
                self.counters@.len() == n,
                forall|j: int| 0 <= j < i ==> self.counters@[j] == start[j],
                forall|j: int|
                    i <= j < n ==> start[j] + 1 == (#[trigger] table[j]).len() && self.counters@[j]
                        == 0,
            decreases i,
        {
            i -= 1;
            let size = self.table[i].len();
            assert(size == table[i as int].len());
            let pick = self.counters[i];
            assert(pick == start[i as int]);
            if pick + 1 < size {
                self.counters.set(i, pick + 1);
                proof {
                    lemma_carry(table, start, self.counters@, i as nat, n as nat);
                    assert forall|j: int| 0 <= j < table.len() implies #[trigger] self.counters@[j]
                        < table[j].len() by {
                        if j > i {
                            assert(start[j] + 1 == table[j].len());
                        } else if j < i {
                            assert(self.counters@[j] == start[j]);
                        }
                    }
                }
                return;
            }
            self.counters.set(i, 0);
        }
        proof {
            lemma_last_tuple(table, start, n as nat);
        }
        self.done = true;
    }

    /// The next word whose length lies in the window, or nothing when the
    /// tuples are used up.
    pub fn next_word(&mut self) -> (out: Option<Vec<u8>>)
        requires
            old(self).wf(),
        ensures
            final(self).wf(),
            final(self).table() == old(self).table(),
            final(self).lo() == old(self).lo(),
            final(self).hi() == old(self).hi(),
            match out {
                Some(word) => old(self).remaining() == seq![word@] + final(self).remaining(),
                None => old(self).remaining() == Seq::<Seq<u8>>::empty(),
            },
            match next_hit(old(self).table(), old(self).lo(), old(self).hi(), old(self).position()) {
                Some(k) => out is Some && out.unwrap()@ == word_at(
                    old(self).table(),
                    old(self).table().len(),
                    k as int,
                ) && final(self).position() == k + 1,
                None => out is None && final(self).position() == total(
                    old(self).table(),
                    old(self).table().len(),
                ),
            },
    {
        proof {
            if !self.done {
                lemma_value_below_total(self.table(), self.counters(), self.table().len());
            }
        }
        while !self.done
            invariant
                self.wf(),
                self.table() == old(self).table(),
                self.lo() == old(self).lo(),
                self.hi() == old(self).hi(),
                self.position() <= total(self.table(), self.table().len()),
                next_hit(self.table(), self.lo(), self.hi(), self.position()) == next_hit(
                    old(self).table(),
                    old(self).lo(),
                    old(self).hi(),
                    old(self).position(),
                ),
            decreases total(self.table(), self.table().len()) - self.position(),
        {
            proof {
                lemma_value_below_total(self.table(), self.counters(), self.table().len());
            }
            let word = self.current_word();
            self.advance();
            if self.lo <= word.len() && word.len() <= self.hi {
                proof {
                    lemma_next_hit_emitted(
                        old(self).table(),
                        old(self).lo(),
                        old(self).hi(),
                        old(self).position(),
                    );
                }
                return Some(word);
            }
        }
        proof {
            lemma_next_hit_emitted(
                old(self).table(),
                old(self).lo(),
                old(self).hi(),
                old(self).position(),
            );
        }
        None
    }

    /// The next line of output: the next word and a newline after it.
    pub fn next_line(&mut self) -> (out: Option<Vec<u8>>)
        requires
            old(self).wf(),
        ensures
            final(self).wf(),
            final(self).table() == old(self).table(),
            final(self).lo() == old(self).lo(),
            final(self).hi() == old(self).hi(),
            match out {
                Some(line) => line@.len() > 0 && line@.last() == NEWLINE && old(self).remaining()
                    == seq![line@.drop_last()] + final(self).remaining(),
                None => old(self).remaining() == Seq::<Seq<u8>>::empty(),
            },
    {
        match self.next_word() {
            Some(word) => {
                let mut line = word;
                let ghost bare = line@;
                line.push(NEWLINE);
                assert(line@.drop_last() =~= bare);
                Some(line)
            },
            None => None,
        }
    }
}

/// Odometer carry in a generator: while words are left, the pick of slot
/// `i` is the number of the next word divided by the product of the sizes
/// of the slots after `i`, modulo the size of slot `i`.
pub proof fn lemma_counters_of_position(generator: WordGenerator, i: nat)
    requires
        generator.wf(),
        !generator.exhausted(),
        i < generator.table().len(),
    ensures
        stride(generator.table(), generator.table().len(), i) > 0,
        generator.counters()[i as int] == (generator.position() as int / stride(
            generator.table(),
            generator.table().len(),
            i,
        ) as int) % generator.table()[i as int].len() as int,
{
    lemma_odometer_digit(generator.table(), generator.counters(), generator.table().len(), i);
}

/// Deterministic order: two generators set up from the same mask, bounds,
/// custom charsets and wordlists hand out the same words in the same order.
pub proof fn lemma_same_inputs_same_words(
    one: WordGenerator,
    two: WordGenerator,
    mask: Seq<u8>,
    min_len: Option<usize>,
    max_len: Option<usize>,
    charsets: Seq<Seq<u8>>,
    wordlists: Seq<Seq<Seq<u8>>>,
)
    requires
        setup_of(mask, min_len, max_len, charsets, wordlists) is Ok,
        one.starts_from(setup_of(mask, min_len, max_len, charsets, wordlists).unwrap()),
        two.starts_from(setup_of(mask, min_len, max_len, charsets, wordlists).unwrap()),
    ensures
        one.remaining() == two.remaining(),
{
}

/// The tuple of all first alternatives has the number 0.
pub proof fn lemma_first_tuple(table: Seq<Seq<Seq<u8>>>, counters: Seq<usize>, n: nat)
    requires
        n <= counters.len(),
        forall|j: int| 0 <= j < n ==> #[trigger] counters[j] == 0,
    ensures
        value(table, counters, n) == 0,
    decreases n,
{
    if n > 0 {
        lemma_first_tuple(table, counters, (n - 1) as nat);
        let s = table[n - 1].len() as int;
        assert(0 * s == 0) by (nonlinear_arith);
    }
}

} // verus!
