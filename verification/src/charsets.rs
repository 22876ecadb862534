//! The builtin character sets and the per-byte classes of the charset-mask
//! cost model.
//!
//! The symbol set of the generator has 32 bytes and no space; the symbol
//! class of the cost model has 33, the same bytes and the space.

use vstd::prelude::*;

verus! {

/// The space byte.
pub const SPACE: u8 = 0x20;

/// Keyspace of the digit class.
pub const DIGIT_KEYSPACE: u64 = 10;

/// Keyspace of the letter class; upper and lower case count as one class.
pub const LETTER_KEYSPACE: u64 = 26;

/// Keyspace of the symbol class: the 32 symbols and the space.
pub const SYMBOL_KEYSPACE: u64 = 33;

/// Keyspace of the class of all other bytes.
pub const ANY_KEYSPACE: u64 = 256;

/// The `count` consecutive bytes that start at `first`.
pub open spec fn byte_run(first: u8, count: nat) -> Seq<u8> {
    Seq::new(count, |i: int| (first + i) as u8)
}

/// `0123456789`
pub open spec fn digits() -> Seq<u8> {
    byte_run(0x30, 10)
}

/// `abcdefghijklmnopqrstuvwxyz`
pub open spec fn lower() -> Seq<u8> {
    byte_run(0x61, 26)
}

/// `ABCDEFGHIJKLMNOPQRSTUVWXYZ`
pub open spec fn upper() -> Seq<u8> {
    byte_run(0x41, 26)
}

/// The 32 punctuation bytes in ascending order: `!` to `/`, `:` to `@`,
/// `[` to the backtick, `{` to `~`.
pub open spec fn symbols() -> Seq<u8> {
    byte_run(0x21, 15) + byte_run(0x3a, 7) + byte_run(0x5b, 6) + byte_run(0x7b, 4)
}

/// Digits, lower case, upper case and symbols, in that order.
pub open spec fn printable() -> Seq<u8> {
    digits() + lower() + upper() + symbols()
}

/// Every byte value in ascending order.
pub open spec fn all_bytes() -> Seq<u8> {
    byte_run(0, 256)
}

/// Whether `b` is one of the 32 symbols.
pub open spec fn is_symbol(b: u8) -> bool {
    symbols().contains(b)
}

/// The class of a byte in the charset-mask cost model.
#[derive(Clone, Copy, Debug, PartialEq, Eq, Structural)]
pub enum CharClass {
    /// An ASCII digit.
    Digit,
    /// An ASCII letter of either case.
    Letter,
    /// One of the 32 symbols, or the space.
    Symbol,
    /// Any other byte.
    Any,
}

/// The class of `b`: digit, else letter, else symbol or space, else any.
pub open spec fn class_of(b: u8) -> CharClass {
    if digits().contains(b) {
        CharClass::Digit
    } else if lower().contains(b) || upper().contains(b) {
        CharClass::Letter
    } else if is_symbol(b) || b == SPACE {
        CharClass::Symbol
    } else {
        CharClass::Any
    }
}

/// The number of bytes that a class stands for in the cost model.
pub open spec fn keyspace_of(class: CharClass) -> u64 {
    match class {
        CharClass::Digit => DIGIT_KEYSPACE,
        CharClass::Letter => LETTER_KEYSPACE,
        CharClass::Symbol => SYMBOL_KEYSPACE,
        CharClass::Any => ANY_KEYSPACE,
    }
}

/// The tag of a class in a mask string: `d`, `l`, `s` or `a`.
pub open spec fn tag_of(class: CharClass) -> u8 {
    match class {
        CharClass::Digit => 0x64,
        CharClass::Letter => 0x6c,
        CharClass::Symbol => 0x73,
        CharClass::Any => 0x61,
    }
}

/// A run of bytes holds exactly the bytes of its range.
pub proof fn lemma_byte_run(first: u8, count: nat, b: u8)
    requires
        first + count <= 256,
    ensures
        byte_run(first, count).contains(b) <==> first <= b < first + count,
{
    let run = byte_run(first, count);
    if first <= b < first + count {
        assert(run[b - first] == b);
    }
}

/// A concatenation holds what either side holds.
pub proof fn lemma_concat_contains(a: Seq<u8>, b: Seq<u8>, x: u8)
    ensures
        (a + b).contains(x) <==> a.contains(x) || b.contains(x),
{
    if a.contains(x) {
        let i = choose|i: int| 0 <= i < a.len() && a[i] == x;
        assert((a + b)[i] == x);
    }
    if b.contains(x) {
        let i = choose|i: int| 0 <= i < b.len() && b[i] == x;
        assert((a + b)[a.len() + i] == x);
    }
    if (a + b).contains(x) {
        let i = choose|i: int| 0 <= i < (a + b).len() && (a + b)[i] == x;
        if i < a.len() {
            assert(a[i] == x);
        } else {
            assert(b[i - a.len()] == x);
        }
    }
}

/// The symbols are the bytes of four ranges.
pub proof fn lemma_symbols(b: u8)
    ensures
        is_symbol(b) <==> (0x21 <= b <= 0x2f || 0x3a <= b <= 0x40 || 0x5b <= b <= 0x60 || 0x7b
            <= b <= 0x7e),
{
    lemma_byte_run(0x21, 15, b);
    lemma_byte_run(0x3a, 7, b);
    lemma_byte_run(0x5b, 6, b);
    lemma_byte_run(0x7b, 4, b);
    lemma_concat_contains(byte_run(0x21, 15), byte_run(0x3a, 7), b);
    lemma_concat_contains(byte_run(0x21, 15) + byte_run(0x3a, 7), byte_run(0x5b, 6), b);
    lemma_concat_contains(
        byte_run(0x21, 15) + byte_run(0x3a, 7) + byte_run(0x5b, 6),
        byte_run(0x7b, 4),
        b,
    );
}

/// The bytes `first`, `first + 1`, ... (`count` of them), appended to `out`.
pub fn push_run(out: &mut Vec<u8>, first: u8, count: u16)
    requires
        first + count <= 256,
    ensures
        final(out)@ == old(out)@ + byte_run(first, count as nat),
{
    let mut i: u16 = 0;
    assert(out@ =~= old(out)@ + byte_run(first, 0));
    while i < count
        invariant
            i <= count,
            first + count <= 256,
            out@ == old(out)@ + byte_run(first, i as nat),
        decreases count - i,
    {
        let ghost before = out@;
        let b: u8 = (first as u16 + i) as u8;
        out.push(b);
        i += 1;
        assert(out@ =~= old(out)@ + byte_run(first, i as nat));
    }
}

/// The digits.
pub fn digits_table() -> (out: Vec<u8>)
    ensures
        out@ == digits(),
{
    let mut out: Vec<u8> = Vec::new();
    push_run(&mut out, 0x30, 10);
    assert(out@ =~= digits());
    out
}

/// The lower-case letters.
pub fn lower_table() -> (out: Vec<u8>)
    ensures
        out@ == lower(),
{
    let mut out: Vec<u8> = Vec::new();
    push_run(&mut out, 0x61, 26);
    assert(out@ =~= lower());
    out
}

/// The upper-case letters.
pub fn upper_table() -> (out: Vec<u8>)
    ensures
        out@ == upper(),
{
    let mut out: Vec<u8> = Vec::new();
    push_run(&mut out, 0x41, 26);
    assert(out@ =~= upper());
    out
}

/// The 32 symbols.
pub fn symbols_table() -> (out: Vec<u8>)
    ensures
        out@ == symbols(),
{
    let mut out: Vec<u8> = Vec::new();
    push_run(&mut out, 0x21, 15);
    push_run(&mut out, 0x3a, 7);
    push_run(&mut out, 0x5b, 6);
    push_run(&mut out, 0x7b, 4);
    assert(out@ =~= symbols());
    out
}

/// Digits, lower case, upper case and symbols.
pub fn printable_table() -> (out: Vec<u8>)
    ensures
        out@ == printable(),
{
    let mut out: Vec<u8> = Vec::new();
    push_run(&mut out, 0x30, 10);
    push_run(&mut out, 0x61, 26);
    push_run(&mut out, 0x41, 26);
    push_run(&mut out, 0x21, 15);
    push_run(&mut out, 0x3a, 7);
    push_run(&mut out, 0x5b, 6);
    push_run(&mut out, 0x7b, 4);
    assert(out@ =~= printable());
    out
}

/// Every byte value.
pub fn all_bytes_table() -> (out: Vec<u8>)
    ensures
        out@ == all_bytes(),
{
    let mut out: Vec<u8> = Vec::new();
    push_run(&mut out, 0, 256);
    assert(out@ =~= all_bytes());
    out
}

/// Classifies a byte.
pub fn classify(b: u8) -> (class: CharClass)
    ensures
        class == class_of(b),
{
    proof {
        lemma_byte_run(0x30, 10, b);
        lemma_byte_run(0x61, 26, b);
        lemma_byte_run(0x41, 26, b);
        lemma_symbols(b);
    }
    if 0x30 <= b && b <= 0x39 {
        CharClass::Digit
    } else if (0x61 <= b && b <= 0x7a) || (0x41 <= b && b <= 0x5a) {
        CharClass::Letter
    } else if b == SPACE || (0x21 <= b && b <= 0x2f) || (0x3a <= b && b <= 0x40) || (0x5b <= b
        && b <= 0x60) || (0x7b <= b && b <= 0x7e) {
        CharClass::Symbol
    } else {
        CharClass::Any
    }
}

/// The keyspace of a class.
pub fn keyspace(class: CharClass) -> (size: u64)
    ensures
        size == keyspace_of(class),
{
    match class {
        CharClass::Digit => DIGIT_KEYSPACE,
        CharClass::Letter => LETTER_KEYSPACE,
        CharClass::Symbol => SYMBOL_KEYSPACE,
        CharClass::Any => ANY_KEYSPACE,
    }
}

/// The tag of a class.
pub fn tag(class: CharClass) -> (t: u8)
    ensures
        t == tag_of(class),
{
    match class {
        CharClass::Digit => 0x64,
        CharClass::Letter => 0x6c,
        CharClass::Symbol => 0x73,
        CharClass::Any => 0x61,
    }
}

/// The charset mask of a password: the tag of each byte's class.
pub fn charset_mask(pwd: &[u8]) -> (mask: Vec<u8>)
    ensures
        mask@ == Seq::new(pwd@.len(), |i: int| tag_of(class_of(pwd@[i]))),
{
    let mut mask: Vec<u8> = Vec::new();
    let mut i: usize = 0;
    while i < pwd.len()
        invariant
            i <= pwd@.len(),
            mask@ == Seq::new(i as nat, |k: int| tag_of(class_of(pwd@[k]))),
        decreases pwd@.len() - i,
    {
        mask.push(tag(classify(pwd[i])));
        i += 1;
        assert(mask@ =~= Seq::new(i as nat, |k: int| tag_of(class_of(pwd@[k]))));
    }
    assert(mask@ =~= Seq::new(pwd@.len(), |k: int| tag_of(class_of(pwd@[k]))));
    mask
}

} // verus!
