//! The mask grammar: a mask string becomes an ordered list of slots.
//!
//! `?` introduces a slot; the byte after it names a builtin charset (`d`,
//! `l`, `u`, `s`, `a`, `b`), a custom charset (`1` to `9`) or, as `w` and a
//! digit `1` to `9`, a wordlist. Every other byte stands for itself.

use vstd::prelude::*;

verus! {

/// The byte that introduces a slot.
pub const QUERY: u8 = 0x3f;

/// Why a generator could not be set up.
#[derive(Clone, Copy, Debug, PartialEq, Eq, Structural)]
pub enum GenError {
    /// The mask is malformed: an unknown slot name, a `?` at the end, or a
    /// `?w` without a digit `1` to `9`.
    MaskParse,
    /// The mask names a custom charset or a wordlist that was not supplied.
    MaskReference,
    /// The length bounds contradict each other or the lengths that the mask
    /// can reach.
    Bounds,
}

/// One position of a mask.
#[derive(Clone, Copy, Debug, PartialEq, Eq, Structural)]
pub enum Slot {
    /// A byte that stands for itself.
    Literal(u8),
    /// `?d`
    Digits,
    /// `?l`
    Lower,
    /// `?u`
    Upper,
    /// `?s`
    Symbols,
    /// `?a`
    Printable,
    /// `?b`
    Bytes,
    /// `?1` to `?9`: the custom charset with this index, counted from 0.
    Custom(usize),
    /// `?w1` to `?w9`: the wordlist with this index, counted from 0.
    Words(usize),
}

/// Whether `b` is one of the digits `1` to `9`.
pub open spec fn is_index_digit(b: u8) -> bool {
    0x31 <= b <= 0x39
}

/// The slot that starts at `pos`, and the number of mask bytes it takes.
pub open spec fn slot_at(mask: Seq<u8>, pos: int, charsets: nat, wordlists: nat) -> Result<
    (Slot, int),
    GenError,
> {
    if mask[pos] != QUERY {
        Ok((Slot::Literal(mask[pos]), 1))
    } else if pos + 1 >= mask.len() {
        Err(GenError::MaskParse)
    } else {
        let name = mask[pos + 1];
        if name == 0x64 {
            Ok((Slot::Digits, 2))
        } else if name == 0x6c {
            Ok((Slot::Lower, 2))
        } else if name == 0x75 {
            Ok((Slot::Upper, 2))
        } else if name == 0x73 {
            Ok((Slot::Symbols, 2))
        } else if name == 0x61 {
            Ok((Slot::Printable, 2))
        } else if name == 0x62 {
            Ok((Slot::Bytes, 2))
        } else if is_index_digit(name) {
            if name - 0x30 <= charsets {
                Ok((Slot::Custom((name - 0x31) as usize), 2))
            } else {
                Err(GenError::MaskReference)
            }
        } else if name == 0x77 {
            if pos + 2 >= mask.len() || !is_index_digit(mask[pos + 2]) {
                Err(GenError::MaskParse)
            } else if mask[pos + 2] - 0x30 <= wordlists {
                Ok((Slot::Words((mask[pos + 2] - 0x31) as usize), 3))
            } else {
                Err(GenError::MaskReference)
            }
        } else {
            Err(GenError::MaskParse)
        }
    }
}

/// The slots of `mask` from `pos` on, or the first error met from the left.
pub open spec fn slots_from(mask: Seq<u8>, pos: int, charsets: nat, wordlists: nat) -> Result<
    Seq<Slot>,
    GenError,
>
    decreases mask.len() - pos,
{
    if pos < 0 || pos >= mask.len() {
        Ok(Seq::empty())
    } else {
        match slot_at(mask, pos, charsets, wordlists) {
            Err(e) => Err(e),
            Ok((slot, width)) => match slots_from(mask, pos + width, charsets, wordlists) {
                Err(e) => Err(e),
                Ok(rest) => Ok(seq![slot] + rest),
            },
        }
    }
}

/// The slots of `mask`, given how many custom charsets and wordlists were
/// supplied.
pub open spec fn slots_of(mask: Seq<u8>, charsets: nat, wordlists: nat) -> Result<
    Seq<Slot>,
    GenError,
> {
    slots_from(mask, 0, charsets, wordlists)
}

/// Whether a slot refers only to what was supplied.
pub open spec fn slot_in_range(slot: Slot, charsets: nat, wordlists: nat) -> bool {
    match slot {
        Slot::Custom(k) => k < charsets,
        Slot::Words(k) => k < wordlists,
        _ => true,
    }
}

/// A slot that parses refers only to what was supplied and takes one to
/// three bytes.
pub proof fn lemma_slot_at(mask: Seq<u8>, pos: int, charsets: nat, wordlists: nat)
    requires
        0 <= pos < mask.len(),
    ensures
        match slot_at(mask, pos, charsets, wordlists) {
            Ok((slot, width)) => slot_in_range(slot, charsets, wordlists) && 1 <= width <= 3 && pos
                + width <= mask.len(),
            Err(_) => true,
        },
{
}

/// Slots that parse refer only to what was supplied.
pub proof fn lemma_slots_in_range(mask: Seq<u8>, pos: int, charsets: nat, wordlists: nat)
    requires
        0 <= pos,
    ensures
        match slots_from(mask, pos, charsets, wordlists) {
            Ok(slots) => forall|i: int|
                0 <= i < slots.len() ==> slot_in_range(#[trigger] slots[i], charsets, wordlists),
            Err(_) => true,
        },
    decreases mask.len() - pos,
{
    if pos < mask.len() {
        lemma_slot_at(mask, pos, charsets, wordlists);
        match slot_at(mask, pos, charsets, wordlists) {
            Ok((slot, width)) => {
                lemma_slots_in_range(mask, pos + width, charsets, wordlists);
            },
            Err(_) => {},
        }
    }
}

/// Reads the slot that starts at `pos`.
pub fn read_slot(mask: &[u8], pos: usize, charsets: usize, wordlists: usize) -> (out: Result<
    (Slot, usize),
    GenError,
>)
    requires
        pos < mask@.len(),
    ensures
        match (out, slot_at(mask@, pos as int, charsets as nat, wordlists as nat)) {
            (Ok((slot, width)), Ok((s, w))) => slot == s && width == w,
            (Err(e), Err(f)) => e == f,
            _ => false,
        },
{
    if mask[pos] != QUERY {
        return Ok((Slot::Literal(mask[pos]), 1));
    }
    if pos + 1 >= mask.len() {
        return Err(GenError::MaskParse);
    }
    let name = mask[pos + 1];
    if name == 0x64 {
        Ok((Slot::Digits, 2))
    } else if name == 0x6c {
        Ok((Slot::Lower, 2))
    } else if name == 0x75 {
        Ok((Slot::Upper, 2))
    } else if name == 0x73 {
        Ok((Slot::Symbols, 2))
    } else if name == 0x61 {
        Ok((Slot::Printable, 2))
    } else if name == 0x62 {
        Ok((Slot::Bytes, 2))
    } else if 0x31 <= name && name <= 0x39 {
        if (name - 0x30) as usize <= charsets {
            Ok((Slot::Custom((name - 0x31) as usize), 2))
        } else {
            Err(GenError::MaskReference)
        }
    } else if name == 0x77 {
        if pos + 2 >= mask.len() {
            return Err(GenError::MaskParse);
        }
        let digit = mask[pos + 2];
        if !(0x31 <= digit && digit <= 0x39) {
            Err(GenError::MaskParse)
        } else if (digit - 0x30) as usize <= wordlists {
            Ok((Slot::Words((digit - 0x31) as usize), 3))
        } else {
            Err(GenError::MaskReference)
        }
    } else {
        Err(GenError::MaskParse)
    }
}

/// Parses a mask into its slots.
pub fn parse_mask(mask: &[u8], charsets: usize, wordlists: usize) -> (out: Result<
    Vec<Slot>,
    GenError,
>)
    ensures
        match (out, slots_of(mask@, charsets as nat, wordlists as nat)) {
            (Ok(slots), Ok(s)) => slots@ == s,
            (Err(e), Err(f)) => e == f,
            _ => false,
        },
        out is Ok ==> forall|i: int|
            0 <= i < out.unwrap()@.len() ==> slot_in_range(
                #[trigger] out.unwrap()@[i],
                charsets as nat,
                wordlists as nat,
            ),
{
    let ghost nc = charsets as nat;
    let ghost nw = wordlists as nat;
    let mut slots: Vec<Slot> = Vec::new();
    let mut pos: usize = 0;
    proof {
        lemma_slots_in_range(mask@, 0, nc, nw);
    }
    while pos < mask.len()
        invariant
            pos <= mask@.len(),
            nc == charsets as nat,
            nw == wordlists as nat,
            match slots_from(mask@, pos as int, nc, nw) {
                Ok(rest) => slots_of(mask@, nc, nw) == Ok::<Seq<Slot>, GenError>(slots@ + rest),
                Err(e) => slots_of(mask@, nc, nw) == Err::<Seq<Slot>, GenError>(e),
            },
        decreases mask@.len() - pos,
    {
        proof {
            lemma_slot_at(mask@, pos as int, nc, nw);
        }
        match read_slot(mask, pos, charsets, wordlists) {
            Err(e) => {
                return Err(e);
            },
            Ok((slot, width)) => {
                let ghost before = slots@;
                slots.push(slot);
                proof {
                    match slots_from(mask@, pos + width, nc, nw) {
                        Ok(rest) => {
                            assert(before + (seq![slot] + rest) =~= slots@ + rest);
                        },
                        Err(_) => {},
                    }
                }
                pos += width;
            },
        }
    }
    assert(slots@ + Seq::<Slot>::empty() =~= slots@);
    Ok(slots)
}

} // verus!
