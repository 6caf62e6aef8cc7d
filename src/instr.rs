//! Byte-code instructions of the matching VM and their decoder.
//!
//! Every instruction starts with one opcode byte. Payloads follow it:
//!
//! | opcode | instruction           | payload                               | size     |
//! |--------|-----------------------|---------------------------------------|----------|
//! | 0      | `AnyByte`             | none                                  | 1        |
//! | 1      | `Byte`                | the byte                              | 2        |
//! | 2      | `MaskedByte`          | byte, mask                            | 3        |
//! | 3      | `CaseInsensitiveChar` | lowercase byte                        | 2        |
//! | 4      | `ClassBitmap`         | 32 bytes, bit `b % 8` of byte `b / 8` | 33       |
//! | 5      | `ClassRanges`         | count `n`, then `n` pairs (lo, hi)    | 2 + 2n   |
//! | 6      | `Match`               | none                                  | 1        |
//! | 7      | `SplitA`              | signed 16-bit offset, little endian   | 3        |
//! | 8      | `SplitB`              | signed 16-bit offset, little endian   | 3        |
//! | 9      | `SplitN`              | count `n`, then `n` signed offsets    | 2 + 2n   |
//! | 10     | `Jump`                | signed 16-bit offset, little endian   | 3        |
//! | 11     | `Start`               | none                                  | 1        |
//! | 12     | `End`                 | none                                  | 1        |
//! | 13     | `WordBoundary`        | none                                  | 1        |
//! | 14     | `WordBoundaryNeg`     | none                                  | 1        |
//! | 15     | `Eoi`                 | none                                  | 1        |
//!
//! Offsets are relative to the first byte of the instruction that holds them.
use vstd::prelude::*;

verus! {

pub const OP_ANY_BYTE: u8 = 0;
pub const OP_BYTE: u8 = 1;
pub const OP_MASKED_BYTE: u8 = 2;
pub const OP_CASE_INSENSITIVE: u8 = 3;
pub const OP_CLASS_BITMAP: u8 = 4;
pub const OP_CLASS_RANGES: u8 = 5;
pub const OP_MATCH: u8 = 6;
pub const OP_SPLIT_A: u8 = 7;
pub const OP_SPLIT_B: u8 = 8;
pub const OP_SPLIT_N: u8 = 9;
pub const OP_JUMP: u8 = 10;
pub const OP_START: u8 = 11;
pub const OP_END: u8 = 12;
pub const OP_WORD_BOUNDARY: u8 = 13;
pub const OP_WORD_BOUNDARY_NEG: u8 = 14;
pub const OP_EOI: u8 = 15;

/// A decoded instruction. Variable-length payloads are not copied: they are
/// given by their position inside the program.
#[derive(Clone, Copy, Debug, PartialEq, Eq)]
pub enum Instr {
    AnyByte,
    Byte(u8),
    MaskedByte { byte: u8, mask: u8 },
    CaseInsensitiveChar(u8),
    /// Position of the 32-byte membership bitmap.
    ClassBitmap(usize),
    /// Position of the first (lo, hi) pair and number of pairs.
    ClassRanges { at: usize, count: usize },
    Match,
    SplitA(i16),
    SplitB(i16),
    /// Position of the first offset and number of offsets.
    SplitN { at: usize, count: usize },
    Jump(i16),
    Start,
    End,
    WordBoundary,
    WordBoundaryNeg,
    Eoi,
}

/// Instructions that wait for an input byte (or report a match): a thread
/// of the VM always stands at one of them.
pub open spec fn is_thread_instr(i: Instr) -> bool {
    match i {
        Instr::AnyByte | Instr::Byte(_) | Instr::MaskedByte { .. }
        | Instr::CaseInsensitiveChar(_) | Instr::ClassBitmap(_)
        | Instr::ClassRanges { .. } | Instr::Match => true,
        _ => false,
    }
}

/// Instructions that move on without consuming input.
pub open spec fn is_epsilon_instr(i: Instr) -> bool {
    match i {
        Instr::SplitA(_) | Instr::SplitB(_) | Instr::SplitN { .. } | Instr::Jump(_)
        | Instr::Start | Instr::End | Instr::WordBoundary | Instr::WordBoundaryNeg => true,
        _ => false,
    }
}

/// The signed little-endian 16-bit number stored at `at`.
pub open spec fn read_i16(code: Seq<u8>, at: int) -> int {
    let v = code[at] as int + 256 * code[at + 1] as int;
    if v >= 32768 { v - 65536 } else { v }
}

/// The instruction at `ip` and its size, or `None` where `ip` is out of the
/// program, the opcode is unknown or the payload is cut short.
pub open spec fn decode(code: Seq<u8>, ip: int) -> Option<(Instr, usize)> {
    let len = code.len();
    if !(0 <= ip < len) {
        None
    } else {
        let op = code[ip];
        if op == OP_ANY_BYTE {
            Some((Instr::AnyByte, 1usize))
        } else if op == OP_BYTE {
            if ip + 2 <= len { Some((Instr::Byte(code[ip + 1]), 2usize)) } else { None }
        } else if op == OP_MASKED_BYTE {
            if ip + 3 <= len {
                Some((Instr::MaskedByte { byte: code[ip + 1], mask: code[ip + 2] }, 3usize))
            } else {
                None
            }
        } else if op == OP_CASE_INSENSITIVE {
            if ip + 2 <= len {
                Some((Instr::CaseInsensitiveChar(code[ip + 1]), 2usize))
            } else {
                None
            }
        } else if op == OP_CLASS_BITMAP {
            if ip + 33 <= len { Some((Instr::ClassBitmap((ip + 1) as usize), 33usize)) } else { None }
        } else if op == OP_CLASS_RANGES || op == OP_SPLIT_N {
            if ip + 2 <= len && ip + 2 + 2 * code[ip + 1] <= len {
                let at = (ip + 2) as usize;
                let count = code[ip + 1] as usize;
                let size = (2 + 2 * code[ip + 1]) as usize;
                if op == OP_CLASS_RANGES {
                    Some((Instr::ClassRanges { at, count }, size))
                } else {
                    Some((Instr::SplitN { at, count }, size))
                }
            } else {
                None
            }
        } else if op == OP_MATCH {
            Some((Instr::Match, 1usize))
        } else if op == OP_SPLIT_A || op == OP_SPLIT_B || op == OP_JUMP {
            if ip + 3 <= len {
                let o = read_i16(code, ip + 1) as i16;
                if op == OP_SPLIT_A {
                    Some((Instr::SplitA(o), 3usize))
                } else if op == OP_SPLIT_B {
                    Some((Instr::SplitB(o), 3usize))
                } else {
                    Some((Instr::Jump(o), 3usize))
                }
            } else {
                None
            }
        } else if op == OP_START {
            Some((Instr::Start, 1usize))
        } else if op == OP_END {
            Some((Instr::End, 1usize))
        } else if op == OP_WORD_BOUNDARY {
            Some((Instr::WordBoundary, 1usize))
        } else if op == OP_WORD_BOUNDARY_NEG {
            Some((Instr::WordBoundaryNeg, 1usize))
        } else if op == OP_EOI {
            Some((Instr::Eoi, 1usize))
        } else {
            None
        }
    }
}

/// A decoded instruction lies inside the program, payload included.
pub proof fn lemma_decode_in_bounds(code: Seq<u8>, ip: int)
    requires
        decode(code, ip) is Some,
    ensures
        ip + decode(code, ip).unwrap().1 <= code.len(),
        decode(code, ip).unwrap().1 >= 1,
        match decode(code, ip).unwrap().0 {
            Instr::ClassBitmap(at) => at + 32 <= code.len(),
            Instr::ClassRanges { at, count } => at + 2 * count <= code.len(),
            Instr::SplitN { at, count } => at + 2 * count <= code.len(),
            _ => true,
        },
{
}

pub(crate) fn read_i16_at(code: &[u8], at: usize) -> (r: i16)
    requires
        at + 2 <= code@.len(),
    ensures
        r as int == read_i16(code@, at as int),
{
    let v: i32 = code[at] as i32 + 256 * (code[at + 1] as i32);
    if v >= 32768 {
        (v - 65536) as i16
    } else {
        v as i16
    }
}

/// Decodes the instruction at `ip`.
pub fn decode_instr(code: &[u8], ip: usize) -> (r: Option<(Instr, usize)>)
    ensures
        r == decode(code@, ip as int),
{
    let len = code.len();
    if ip >= len {
        return None;
    }
    let op = code[ip];
    if op == OP_ANY_BYTE {
        Some((Instr::AnyByte, 1))
    } else if op == OP_BYTE {
        if len - ip >= 2 { Some((Instr::Byte(code[ip + 1]), 2)) } else { None }
    } else if op == OP_MASKED_BYTE {
        if len - ip >= 3 {
            Some((Instr::MaskedByte { byte: code[ip + 1], mask: code[ip + 2] }, 3))
        } else {
            None
        }
    } else if op == OP_CASE_INSENSITIVE {
        if len - ip >= 2 { Some((Instr::CaseInsensitiveChar(code[ip + 1]), 2)) } else { None }
    } else if op == OP_CLASS_BITMAP {
        if len - ip >= 33 { Some((Instr::ClassBitmap(ip + 1), 33)) } else { None }
    } else if op == OP_CLASS_RANGES || op == OP_SPLIT_N {
        if len - ip >= 2 && len - ip - 2 >= 2 * (code[ip + 1] as usize) {
            let at = ip + 2;
            let count = code[ip + 1] as usize;
            let size = 2 + 2 * count;
            if op == OP_CLASS_RANGES {
                Some((Instr::ClassRanges { at, count }, size))
            } else {
                Some((Instr::SplitN { at, count }, size))
            }
        } else {
            None
        }
    } else if op == OP_MATCH {
        Some((Instr::Match, 1))
    } else if op == OP_SPLIT_A || op == OP_SPLIT_B || op == OP_JUMP {
        if len - ip >= 3 {
            let o = read_i16_at(code, ip + 1);
            if op == OP_SPLIT_A {
                Some((Instr::SplitA(o), 3))
            } else if op == OP_SPLIT_B {
                Some((Instr::SplitB(o), 3))
            } else {
                Some((Instr::Jump(o), 3))
            }
        } else {
            None
        }
    } else if op == OP_START {
        Some((Instr::Start, 1))
    } else if op == OP_END {
        Some((Instr::End, 1))
    } else if op == OP_WORD_BOUNDARY {
        Some((Instr::WordBoundary, 1))
    } else if op == OP_WORD_BOUNDARY_NEG {
        Some((Instr::WordBoundaryNeg, 1))
    } else if op == OP_EOI {
        Some((Instr::Eoi, 1))
    } else {
        None
    }
}

/// ASCII lowercase of `b`.
pub open spec fn ascii_lower(b: u8) -> u8 {
    if 65 <= b <= 90 { (b + 32) as u8 } else { b }
}

/// Bit `k` of `x`, counting from the least significant.
pub open spec fn bit_at(x: nat, k: nat) -> bool
    decreases k,
{
    if k == 0 { x % 2 == 1 } else { bit_at(x / 2, (k - 1) as nat) }
}

/// Some pair `(lo, hi)` of the `count` pairs at `at` has `lo <= b <= hi`.
pub open spec fn in_ranges(code: Seq<u8>, at: int, count: int, b: u8) -> bool {
    exists|j: int| 0 <= j < count && #[trigger] code[at + 2 * j] <= b && b <= code[at + 2 * j + 1]
}

/// Whether the instruction `i` (a byte-consuming one) accepts the byte `b`.
pub open spec fn accepts(code: Seq<u8>, i: Instr, b: u8) -> bool {
    match i {
        Instr::AnyByte => true,
        Instr::Byte(x) => b == x,
        Instr::MaskedByte { byte, mask } => b & mask == byte,
        Instr::CaseInsensitiveChar(x) => ascii_lower(b) == x,
        Instr::ClassBitmap(at) => bit_at(code[at + b / 8] as nat, (b % 8) as nat),
        Instr::ClassRanges { at, count } => in_ranges(code, at as int, count as int, b),
        _ => false,
    }
}

/// Whether the instruction `i` accepts the input at the current position:
/// nothing is accepted past the end of the input.
pub open spec fn accepts_input(code: Seq<u8>, i: Instr, curr: Option<u8>) -> bool {
    match curr {
        Some(b) => accepts(code, i, b),
        None => false,
    }
}

/// Whether `i`, decoded from `code`, accepts `curr`.
pub fn instr_accepts(code: &[u8], i: Instr, curr: Option<u8>) -> (r: bool)
    requires
        match i {
            Instr::ClassBitmap(at) => at + 32 <= code@.len(),
            Instr::ClassRanges { at, count } => at + 2 * count <= code@.len(),
            _ => true,
        },
    ensures
        r == accepts_input(code@, i, curr),
{
    let len = code.len();
    let b = match curr {
        Some(b) => b,
        None => return false,
    };
    match i {
        Instr::AnyByte => true,
        Instr::Byte(x) => b == x,
        Instr::MaskedByte { byte, mask } => b & mask == byte,
        Instr::CaseInsensitiveChar(x) => {
            let lower = if 65 <= b && b <= 90 { b + 32 } else { b };
            lower == x
        },
        Instr::ClassBitmap(at) => {
            let k: u8 = b % 8;
            assert(b / 8 < 32);
            let mut v: u8 = code[at + (b / 8) as usize];
            let mut j: u8 = 0;
            while j < k
                invariant
                    j <= k,
                    k < 8,
                    b / 8 < 32,
                    at + 32 <= code@.len(),
                    bit_at(v as nat, (k - j) as nat) == bit_at(
                        code@[at + b / 8] as nat,
                        k as nat,
                    ),
                decreases k - j,
            {
                assert(bit_at(v as nat, (k - j) as nat) == bit_at((v / 2) as nat, (k - j - 1) as nat));
                v = v / 2;
                j = j + 1;
            }
            v % 2 == 1
        },
        Instr::ClassRanges { at, count } => {
            let mut j: usize = 0;
            while j < count
                invariant
                    j <= count,
                    at + 2 * count <= code@.len(),
                    code@.len() == len,
                    curr == Some(b),
                    i == (Instr::ClassRanges { at, count }),
                    forall|m: int|
                        0 <= m < j ==> !(#[trigger] code@[at + 2 * m] <= b && b <= code@[at + 2 * m + 1]),
                decreases count - j,
            {
                if code[at + 2 * j] <= b && b <= code[at + 2 * j + 1] {
                    let ghost jj = j as int;
                    assert(code@[at + 2 * jj] <= b && b <= code@[at + 2 * jj + 1]);
                    assert(in_ranges(code@, at as int, count as int, b));
                    return true;
                }
                j = j + 1;
            }
            false
        },
        _ => false,
    }
}

} // verus!
