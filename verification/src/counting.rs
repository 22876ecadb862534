//! Counting the words of a generator by length, without walking them.
//!
//! The number of index tuples whose word has a given length is computed slot
//! by slot: a tuple over `n` slots with a word of length `len` is a pick `r`
//! of the last slot together with a tuple over the slots before it whose word
//! has the length `len` minus the length of the pick.

use vstd::prelude::*;
use vstd::arithmetic::div_mod::{
    lemma_div_pos_is_pos, lemma_fundamental_div_mod_converse, lemma_mod_bound,
    lemma_multiply_divide_lt,
};
use crate::generator::{emitted, lemma_empty_slot, reach, table_view, total, word_at};
use crate::lines::{lemma_longest_bounds, views};

verus! {

/// The number of index tuples over the first `n` slots whose word has
/// exactly the length `len`.
pub open spec fn count_len(table: Seq<Seq<Seq<u8>>>, n: nat, len: int) -> nat
    decreases n, 1nat, 0nat,
{
    if n == 0 {
        if len == 0 {
            1
        } else {
            0
        }
    } else {
        count_picks(table, n, len, table[n - 1].len())
    }
}

/// The number of index tuples over the first `n` slots whose word has
/// exactly the length `len` and whose last pick is one of the first `r`
/// alternatives.
pub open spec fn count_picks(table: Seq<Seq<Seq<u8>>>, n: nat, len: int, r: nat) -> nat
    decreases n, 0nat, r,
{
    if n == 0 || r == 0 {
        0
    } else {
        count_picks(table, n, len, (r - 1) as nat) + count_len(
            table,
            (n - 1) as nat,
            len - table[n - 1][r - 1].len(),
        )
    }
}

/// The number of index tuples over the first `n` slots whose word has a
/// length in `lo..=hi`.
pub open spec fn window_count(table: Seq<Seq<Seq<u8>>>, n: nat, lo: int, hi: int) -> nat
    decreases hi - lo + 1,
{
    if hi < lo {
        0
    } else {
        window_count(table, n, lo, hi - 1) + count_len(table, n, hi)
    }
}

/// No word has a negative length.
pub proof fn lemma_count_negative(table: Seq<Seq<Seq<u8>>>, n: nat, len: int)
    requires
        len < 0,
        n <= table.len(),
    ensures
        count_len(table, n, len) == 0,
    decreases n, 1nat, 0nat,
{
    if n > 0 {
        lemma_picks_negative(table, n, len, table[n - 1].len());
    }
}

/// No word has a negative length, whatever its last pick.
pub proof fn lemma_picks_negative(table: Seq<Seq<Seq<u8>>>, n: nat, len: int, r: nat)
    requires
        len < 0,
        0 < n <= table.len(),
        r <= table[n - 1].len(),
    ensures
        count_picks(table, n, len, r) == 0,
    decreases n, 0nat, r,
{
    if r > 0 {
        lemma_picks_negative(table, n, len, (r - 1) as nat);
        lemma_count_negative(table, (n - 1) as nat, len - table[n - 1][r - 1].len());
    }
}

/// Tuples of one length are no more than all tuples.
pub proof fn lemma_count_bound(table: Seq<Seq<Seq<u8>>>, n: nat, len: int)
    requires
        n <= table.len(),
    ensures
        count_len(table, n, len) <= total(table, n),
    decreases n, 1nat, 0nat,
{
    if n > 0 {
        let t = total(table, (n - 1) as nat) as int;
        let s = table[n - 1].len() as int;
        lemma_picks_bound(table, n, len, s as nat);
        assert(t * s == s * t) by (nonlinear_arith);
    }
}

/// Tuples of one length whose last pick is among the first `r` are no more
/// than `r` times the tuples over the slots before.
pub proof fn lemma_picks_bound(table: Seq<Seq<Seq<u8>>>, n: nat, len: int, r: nat)
    requires
        0 < n <= table.len(),
        r <= table[n - 1].len(),
    ensures
        count_picks(table, n, len, r) <= r * total(table, (n - 1) as nat),
    decreases n, 0nat, r,
{
    let t = total(table, (n - 1) as nat) as int;
    if r > 0 {
        lemma_picks_bound(table, n, len, (r - 1) as nat);
        lemma_count_bound(table, (n - 1) as nat, len - table[n - 1][r - 1].len());
        assert((r - 1) * t + t == r * t) by (nonlinear_arith);
    } else {
        assert(0 * t == 0) by (nonlinear_arith);
    }
}

/// Counting over more alternatives counts no fewer tuples.
pub proof fn lemma_count_picks_grows(table: Seq<Seq<Seq<u8>>>, n: nat, len: int, r: nat, s: nat)
    requires
        r <= s,
    ensures
        count_picks(table, n, len, r) <= count_picks(table, n, len, s),
    decreases s,
{
    if r < s && n > 0 {
        lemma_count_picks_grows(table, n, len, r, (s - 1) as nat);
    }
}

/// While no slot is empty, the number of tuples never shrinks as slots are
/// added.
pub proof fn lemma_total_grows(table: Seq<Seq<Seq<u8>>>, m: nat, n: nat)
    requires
        m <= n <= table.len(),
        forall|j: int| 0 <= j < table.len() ==> (#[trigger] table[j]).len() > 0,
    ensures
        1 <= total(table, m) <= total(table, n),
    decreases n,
{
    if m < n {
        lemma_total_grows(table, m, (n - 1) as nat);
        let t = total(table, (n - 1) as nat) as int;
        let s = table[n - 1].len() as int;
        assert(t <= t * s) by (nonlinear_arith)
            requires
                t >= 1,
                s >= 1,
        ;
    } else if n > 0 {
        lemma_total_grows(table, (m - 1) as nat, (n - 1) as nat);
        let t = total(table, (n - 1) as nat) as int;
        let s = table[n - 1].len() as int;
        assert(1 <= t * s) by (nonlinear_arith)
            requires
                t >= 1,
                s >= 1,
        ;
    }
}

/// Without tuples no window holds any.
pub proof fn lemma_window_empty(table: Seq<Seq<Seq<u8>>>, n: nat, lo: int, hi: int)
    requires
        n <= table.len(),
        total(table, n) == 0,
    ensures
        window_count(table, n, lo, hi) == 0,
    decreases hi - lo + 1,
{
    if hi >= lo {
        lemma_window_empty(table, n, lo, hi - 1);
        lemma_count_bound(table, n, hi);
    }
}

/// The number of words among the first `upto`, in odometer order over the
/// first `n` slots, whose length is exactly `len`.
pub open spec fn walked_len(table: Seq<Seq<Seq<u8>>>, n: nat, len: int, upto: nat) -> nat
    decreases upto,
{
    if upto == 0 {
        0
    } else {
        walked_len(table, n, len, (upto - 1) as nat) + if word_at(table, n, upto - 1).len()
            == len {
            1nat
        } else {
            0nat
        }
    }
}

/// The number of words among the first `upto`, in odometer order over the
/// first `n` slots, whose length lies in `lo..=hi`: the number of words that
/// a walk through them emits.
pub open spec fn walked(table: Seq<Seq<Seq<u8>>>, n: nat, lo: int, hi: int, upto: nat) -> nat
    decreases upto,
{
    if upto == 0 {
        0
    } else {
        walked(table, n, lo, hi, (upto - 1) as nat) + if lo <= word_at(table, n, upto - 1).len()
            <= hi {
            1nat
        } else {
            0nat
        }
    }
}

/// Among the first `r` picks of slot `n - 1`, the number of those that
/// bring the word number `q` over the slots before to the length `len`.
pub open spec fn block_hits(table: Seq<Seq<Seq<u8>>>, n: nat, len: int, q: nat, r: nat) -> nat
    decreases r,
{
    if r == 0 || n == 0 {
        0
    } else {
        block_hits(table, n, len, q, (r - 1) as nat) + if word_at(
            table,
            (n - 1) as nat,
            q as int,
        ).len() + table[n - 1][r - 1].len() == len {
            1nat
        } else {
            0nat
        }
    }
}

/// Summed over the first `r` picks of slot `n - 1`: the number of words
/// among the first `q` over the slots before that the pick brings to the
/// length `len`.
pub open spec fn picks_walked(table: Seq<Seq<Seq<u8>>>, n: nat, len: int, r: nat, q: nat) -> nat
    decreases r,
{
    if r == 0 || n == 0 {
        0
    } else {
        picks_walked(table, n, len, (r - 1) as nat, q) + walked_len(
            table,
            (n - 1) as nat,
            len - table[n - 1][r - 1].len(),
            q,
        )
    }
}

/// A walk emits no more words than it passes.
pub proof fn lemma_walked_bound(table: Seq<Seq<Seq<u8>>>, n: nat, lo: int, hi: int, upto: nat)
    ensures
        walked(table, n, lo, hi, upto) <= upto,
    decreases upto,
{
    if upto > 0 {
        lemma_walked_bound(table, n, lo, hi, (upto - 1) as nat);
    }
}

/// An empty window lets no word through.
pub proof fn lemma_walked_none(table: Seq<Seq<Seq<u8>>>, n: nat, lo: int, hi: int, upto: nat)
    requires
        hi < lo,
    ensures
        walked(table, n, lo, hi, upto) == 0,
    decreases upto,
{
    if upto > 0 {
        lemma_walked_none(table, n, lo, hi, (upto - 1) as nat);
    }
}

/// The words of a window are those of the window below its top and those
/// of the top length.
pub proof fn lemma_walked_split(table: Seq<Seq<Seq<u8>>>, n: nat, lo: int, hi: int, upto: nat)
    requires
        lo <= hi,
    ensures
        walked(table, n, lo, hi, upto) == walked(table, n, lo, hi - 1, upto) + walked_len(
            table,
            n,
            hi,
            upto,
        ),
    decreases upto,
{
    if upto > 0 {
        lemma_walked_split(table, n, lo, hi, (upto - 1) as nat);
    }
}

/// Within the block of the words `q * s..q * s + r`, where `s` is the size
/// of the last slot, the words of length `len` are the picks that bring the
/// word number `q` over the slots before to that length.
pub proof fn lemma_block(table: Seq<Seq<Seq<u8>>>, n: nat, len: int, q: nat, r: nat)
    requires
        0 < n <= table.len(),
        r <= table[n - 1].len(),
    ensures
        walked_len(table, n, len, q * table[n - 1].len() + r) == walked_len(
            table,
            n,
            len,
            q * table[n - 1].len(),
        ) + block_hits(table, n, len, q, r),
    decreases r,
{
    if r > 0 {
        lemma_block(table, n, len, q, (r - 1) as nat);
        let s = table[n - 1].len() as int;
        let k = q * s + (r - 1);
        assert(q * table[n - 1].len() + r - 1 == k);
        lemma_fundamental_div_mod_converse(k, s, q as int, r - 1);
        assert(word_at(table, n, k) == word_at(table, (n - 1) as nat, q as int) + table[n
            - 1][r - 1]);
    }
}

/// One more word over the slots before adds its block to the sums over the
/// picks.
pub proof fn lemma_picks_step(table: Seq<Seq<Seq<u8>>>, n: nat, len: int, r: nat, q: nat)
    requires
        0 < n <= table.len(),
        r <= table[n - 1].len(),
    ensures
        picks_walked(table, n, len, r, q + 1) == picks_walked(table, n, len, r, q) + block_hits(
            table,
            n,
            len,
            q,
            r,
        ),
    decreases r,
{
    if r > 0 {
        lemma_picks_step(table, n, len, (r - 1) as nat, q);
    }
}

/// The words of length `len` among the first `q` blocks, counted pick by
/// pick.
pub proof fn lemma_rows(table: Seq<Seq<Seq<u8>>>, n: nat, len: int, q: nat)
    requires
        0 < n <= table.len(),
    ensures
        walked_len(table, n, len, q * table[n - 1].len()) == picks_walked(
            table,
            n,
            len,
            table[n - 1].len(),
            q,
        ),
    decreases q,
{
    let s = table[n - 1].len();
    if q == 0 {
        lemma_picks_none(table, n, len, s);
        assert(0 * s == 0) by (nonlinear_arith);
    } else {
        let p = (q - 1) as nat;
        lemma_rows(table, n, len, p);
        lemma_block(table, n, len, p, s);
        lemma_picks_step(table, n, len, s, p);
        assert(p * s + s == q * s) by (nonlinear_arith)
            requires
                p + 1 == q,
        ;
    }
}

/// Before the first word nothing is counted.
pub proof fn lemma_picks_none(table: Seq<Seq<Seq<u8>>>, n: nat, len: int, r: nat)
    ensures
        picks_walked(table, n, len, r, 0) == 0,
    decreases r,
{
    if r > 0 && n > 0 {
        lemma_picks_none(table, n, len, (r - 1) as nat);
    }
}

/// The tuples counted slot by slot are the words met on a walk: for one
/// length.
pub proof fn lemma_count_len_is_walked(table: Seq<Seq<Seq<u8>>>, n: nat, len: int)
    requires
        n <= table.len(),
    ensures
        count_len(table, n, len) == walked_len(table, n, len, total(table, n)),
    decreases n, 1nat, 0nat,
{
    if n == 0 {
        assert(walked_len(table, 0, len, 0) == 0);
        assert(word_at(table, 0, 0).len() == 0);
    } else {
        let s = table[n - 1].len();
        lemma_rows(table, n, len, total(table, (n - 1) as nat));
        lemma_count_picks_is_walked(table, n, len, s);
    }
}

/// The tuples counted slot by slot are the words met on a walk: for one
/// length and the first `r` picks of the last slot.
pub proof fn lemma_count_picks_is_walked(table: Seq<Seq<Seq<u8>>>, n: nat, len: int, r: nat)
    requires
        0 < n <= table.len(),
        r <= table[n - 1].len(),
    ensures
        count_picks(table, n, len, r) == picks_walked(
            table,
            n,
            len,
            r,
            total(table, (n - 1) as nat),
        ),
    decreases n, 0nat, r,
{
    if r > 0 {
        lemma_count_picks_is_walked(table, n, len, (r - 1) as nat);
        lemma_count_len_is_walked(table, (n - 1) as nat, len - table[n - 1][r - 1].len());
    }
}

/// Counting equals enumeration: the number of tuples with a word length in
/// `lo..=hi`, counted slot by slot, is the number of words that a walk
/// through all tuples in odometer order emits for that window.
pub proof fn lemma_count_is_walked(table: Seq<Seq<Seq<u8>>>, n: nat, lo: int, hi: int)
    requires
        n <= table.len(),
    ensures
        window_count(table, n, lo, hi) == walked(table, n, lo, hi, total(table, n)),
        window_count(table, n, lo, hi) <= total(table, n),
    decreases hi - lo + 1,
{
    lemma_walked_bound(table, n, lo, hi, total(table, n));
    if hi < lo {
        lemma_walked_none(table, n, lo, hi, total(table, n));
    } else {
        lemma_count_is_walked(table, n, lo, hi - 1);
        lemma_count_len_is_walked(table, n, hi);
        lemma_walked_split(table, n, lo, hi, total(table, n));
    }
}

/// No word is longer than the reach of its slots.
pub proof fn lemma_word_within_reach(table: Seq<Seq<Seq<u8>>>, n: nat, k: int)
    requires
        n <= table.len(),
        0 <= k < total(table, n),
    ensures
        word_at(table, n, k).len() <= reach(table, n),
    decreases n,
{
    if n > 0 {
        let s = table[n - 1].len() as int;
        let t = total(table, (n - 1) as nat) as int;
        if s == 0 {
            assert(t * 0 == 0) by (nonlinear_arith);
        }
        assert(s * t == t * s) by (nonlinear_arith);
        lemma_multiply_divide_lt(k, s, t);
        lemma_div_pos_is_pos(k, s);
        lemma_mod_bound(k, s);
        lemma_word_within_reach(table, (n - 1) as nat, k / s);
        lemma_longest_bounds(table[n - 1], k % s);
    }
}

/// The window from 0 to the reach lets every word through.
pub proof fn lemma_all_pass(table: Seq<Seq<Seq<u8>>>, n: nat, upto: nat)
    requires
        n <= table.len(),
        upto <= total(table, n),
    ensures
        walked(table, n, 0, reach(table, n) as int, upto) == upto,
    decreases upto,
{
    if upto > 0 {
        lemma_all_pass(table, n, (upto - 1) as nat);
        lemma_word_within_reach(table, n, upto - 1);
    }
}

/// Without bounds every word is emitted: for the window from 0 to the
/// reach the count is the product of the sizes of the slots.
pub proof fn lemma_unbounded_count(table: Seq<Seq<Seq<u8>>>, n: nat)
    requires
        n <= table.len(),
    ensures
        window_count(table, n, 0, reach(table, n) as int) == total(table, n),
{
    lemma_all_pass(table, n, total(table, n));
    lemma_count_is_walked(table, n, 0, reach(table, n) as int);
}

/// The words that come out from `from` on are those that the walk has yet
/// to count.
pub proof fn lemma_emitted_len(table: Seq<Seq<Seq<u8>>>, lo: usize, hi: usize, from: nat)
    requires
        from <= total(table, table.len()),
    ensures
        walked(table, table.len(), lo as int, hi as int, from) + emitted(table, lo, hi, from).len()
            == walked(table, table.len(), lo as int, hi as int, total(table, table.len())),
    decreases total(table, table.len()) - from,
{
    if from < total(table, table.len()) {
        lemma_emitted_len(table, lo, hi, from + 1);
    }
}

/// Counting equals enumeration: the count made slot by slot is the number
/// of words that come out of a generator from its start.
pub proof fn lemma_count_is_emitted(table: Seq<Seq<Seq<u8>>>, lo: usize, hi: usize)
    ensures
        window_count(table, table.len(), lo as int, hi as int) == emitted(table, lo, hi, 0).len(),
{
    lemma_emitted_len(table, lo, hi, 0);
    lemma_count_is_walked(table, table.len(), lo as int, hi as int);
}

/// A wider window holds no fewer tuples.
pub proof fn lemma_window_grows(table: Seq<Seq<Seq<u8>>>, n: nat, lo: int, mid: int, hi: int)
    requires
        mid <= hi,
    ensures
        window_count(table, n, lo, mid) <= window_count(table, n, lo, hi),
    decreases hi - mid,
{
    if mid < hi {
        lemma_window_grows(table, n, lo, mid, hi - 1);
    }
}

/// A vector of `width` zeros.
pub fn zeros(width: usize) -> (out: Vec<u64>)
    ensures
        out@.len() == width,
        forall|i: int| 0 <= i < width ==> out@[i] == 0,
{
    let mut out: Vec<u64> = Vec::new();
    while out.len() < width
        invariant
            out@.len() <= width,
            forall|i: int| 0 <= i < out@.len() ==> out@[i] == 0,
        decreases width - out@.len(),
    {
        out.push(0);
    }
    out
}

/// The number of index tuples of `table`: the product of the sizes of its
/// slots, when it fits in 64 bits.
pub fn product_of_sizes(table: &Vec<Vec<Vec<u8>>>) -> (out: Option<u64>)
    ensures
        match out {
            Some(t) => t == total(table_view(table@), table@.len()),
            None => total(table_view(table@), table@.len()) > u64::MAX,
        },
{
    let ghost shape = table_view(table@);
    let n = table.len();
    let mut i: usize = 0;
    while i < n
        invariant
            i <= n,
            n == table@.len(),
            shape == table_view(table@),
            forall|j: int| 0 <= j < i ==> (#[trigger] shape[j]).len() > 0,
        decreases n - i,
    {
        assert(shape[i as int] == views(table@[i as int]@));
        if table[i].len() == 0 {
            proof {
                lemma_empty_slot(shape, i as nat, n as nat);
            }
            return Some(0);
        }
        i += 1;
    }
    let mut acc: u64 = 1;
    i = 0;
    while i < n
        invariant
            i <= n,
            n == table@.len(),
            shape == table_view(table@),
            forall|j: int| 0 <= j < n ==> (#[trigger] shape[j]).len() > 0,
            acc == total(shape, i as nat),
        decreases n - i,
    {
        assert(shape[i as int] == views(table@[i as int]@));
        let size = table[i].len() as u64;
        if acc > u64::MAX / size {
            proof {
                lemma_total_grows(shape, (i + 1) as nat, n as nat);
                assert(acc * size > u64::MAX) by (nonlinear_arith)
                    requires
                        acc > u64::MAX / size,
                        size > 0,
                ;
            }
            return None;
        }
        assert(acc * size <= u64::MAX) by (nonlinear_arith)
            requires
                acc <= u64::MAX / size,
                size > 0,
        ;
        acc = acc * size;
        i += 1;
    }
    Some(acc)
}

/// The number of words of `table` with a length in `lo..=hi`, when the
/// number of all its words fits in 64 bits.
pub fn count_window(table: &Vec<Vec<Vec<u8>>>, lo: usize, hi: usize) -> (out: Option<u64>)
    requires
        hi < usize::MAX,
    ensures
        out is Some ==> out.unwrap() == window_count(
            table_view(table@),
            table@.len(),
            lo as int,
            hi as int,
        ),
        out is None <==> total(table_view(table@), table@.len()) > u64::MAX,
{
    let ghost shape = table_view(table@);
    let n = table.len();
    let whole = match product_of_sizes(table) {
        Some(whole) => whole,
        None => {
            return None;
        },
    };
    if whole == 0 {
        proof {
            lemma_window_empty(shape, n as nat, lo as int, hi as int);
        }
        return Some(0);
    }
    proof {
        assert forall|j: int| 0 <= j < shape.len() implies (#[trigger] shape[j]).len() > 0 by {
            if shape[j].len() == 0 {
                lemma_empty_slot(shape, j as nat, n as nat);
            }
        }
    }
    let width = hi + 1;
    let mut cur = zeros(width);
    cur.set(0, 1);
    let mut i: usize = 0;
    while i < n
        invariant
            i <= n,
            n == table@.len(),
            shape == table_view(table@),
            width == hi + 1,
            whole == total(shape, n as nat),
            forall|j: int| 0 <= j < shape.len() ==> (#[trigger] shape[j]).len() > 0,
            cur@.len() == width,
            forall|len: int| 0 <= len < width ==> cur@[len] == count_len(shape, i as nat, len),
        decreases n - i,
    {
        let mut next = zeros(width);
        let alts = &table[i];
        assert(shape[i as int] == views(alts@));
        let mut r: usize = 0;
        while r < alts.len()
            invariant
                i < n,
                n == table@.len(),
                shape == table_view(table@),
                shape[i as int] == views(alts@),
                whole == total(shape, n as nat),
                forall|j: int| 0 <= j < shape.len() ==> (#[trigger] shape[j]).len() > 0,
                r <= alts@.len(),
                cur@.len() == width,
                next@.len() == width,
                forall|len: int| 0 <= len < width ==> cur@[len] == count_len(shape, i as nat, len),
                forall|len: int|
                    0 <= len < width ==> next@[len] == count_picks(
                        shape,
                        (i + 1) as nat,
                        len,
                        r as nat,
                    ),
            decreases alts@.len() - r,
        {
            let step = alts[r].len();
            assert(shape[i as int][r as int].len() == step);
            proof {
                assert forall|len: int| 0 <= len < step && len < width implies next@[len]
                    == count_picks(shape, (i + 1) as nat, len, (r + 1) as nat) by {
                    lemma_count_negative(shape, i as nat, len - step);
                }
            }
            let mut len: usize = step;
            while len < width
                invariant
                    i < n,
                    n == table@.len(),
                    shape.len() == n,
                    r < alts@.len(),
                    shape[i as int] == views(alts@),
                    shape[i as int][r as int].len() == step,
                    whole == total(shape, n as nat),
                    forall|j: int| 0 <= j < shape.len() ==> (#[trigger] shape[j]).len() > 0,
                    step <= len,
                    cur@.len() == width,
                    next@.len() == width,
                    forall|l: int| 0 <= l < width ==> cur@[l] == count_len(shape, i as nat, l),
                    forall|l: int|
                        0 <= l < len && l < width ==> next@[l] == count_picks(
                            shape,
                            (i + 1) as nat,
                            l,
                            (r + 1) as nat,
                        ),
                    forall|l: int|
                        len <= l < width ==> next@[l] == count_picks(
                            shape,
                            (i + 1) as nat,
                            l,
                            r as nat,
                        ),
                decreases width - len,
            {
                proof {
                    lemma_count_picks_grows(
                        shape,
                        (i + 1) as nat,
                        len as int,
                        (r + 1) as nat,
                        alts@.len() as nat,
                    );
                    lemma_count_bound(shape, (i + 1) as nat, len as int);
                    lemma_total_grows(shape, (i + 1) as nat, n as nat);
                }
                let sum = next[len] + cur[len - step];
                next.set(len, sum);
                len += 1;
            }
            r += 1;
        }
        cur = next;
        i += 1;
    }
    let mut acc: u64 = 0;
    let mut len: usize = lo;
    while len < width
        invariant
            lo <= len,
            width == hi + 1,
            n == table@.len(),
            shape == table_view(table@),
            cur@.len() == width,
            len <= width || acc == 0,
            forall|l: int| 0 <= l < width ==> cur@[l] == count_len(shape, n as nat, l),
            acc == window_count(shape, n as nat, lo as int, len - 1),
            whole == total(shape, n as nat),
        decreases width - len,
    {
        proof {
            assert(window_count(shape, n as nat, lo as int, len as int) == acc + cur@[len as int]);
            lemma_count_is_walked(shape, n as nat, lo as int, len as int);
        }
        acc = acc + cur[len];
        len += 1;
    }
    proof {
        if len > width {
            lemma_window_grows(shape, n as nat, lo as int, hi as int, len - 1);
        }
    }
    Some(acc)
}

} // verus!
