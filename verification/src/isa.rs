//! The instruction set: opcodes, the `.tbc` file header and the byte
//! encoding of each instruction.
use vstd::prelude::*;
use crate::text::{
    ascii_upper, chars_of, dec_int, dec_nat, int_error_message, is_whitespace, is_ws, parse_i64,
    push_char, push_range, spec_parse_i64, to_upper, trim, trim_range, upper, write_dec_i64,
    write_dec_u64, write_int_error, is_digit, lemma_dec_nat_digits,
    lemma_parse_dec_int, hex_pad, write_hex_padded, ascii_lower, is_letter, lemma_case_char,
    lemma_trim_map, lemma_trim_surrounded, lemma_parse_i64_chars, lower,
};
use vstd::slice::slice_subrange;

verus! {

pub const OP_PUSH: u8 = 0x01;
pub const OP_POP: u8 = 0x02;
pub const OP_DUP: u8 = 0x03;
pub const OP_SWAP: u8 = 0x04;
pub const OP_ADD: u8 = 0x10;
pub const OP_SUB: u8 = 0x11;
pub const OP_MUL: u8 = 0x12;
pub const OP_DIV: u8 = 0x13;
pub const OP_MOD: u8 = 0x14;
pub const OP_NEG: u8 = 0x15;
pub const OP_LOAD: u8 = 0x40;
pub const OP_STORE: u8 = 0x41;
pub const OP_PRINT: u8 = 0x60;
pub const OP_HALT: u8 = 0xFF;

pub const MAGIC: [u8; 4] = [0x4D, 0x56, 0x4D, 0x00];
pub const VERSION: u8 = 0x01;
pub const HEADER_LEN: usize = 9;
pub const MAX_STACK: usize = 1024;
pub const NUM_SLOTS: usize = 256;

/// One instruction of the machine.
#[derive(Debug, Clone, Copy, PartialEq, Eq, Structural)]
pub enum Op {
    Push(i64),
    Pop,
    Dup,
    Swap,
    Add,
    Sub,
    Mul,
    Div,
    Mod,
    Neg,
    Load(u8),
    Store(u8),
    Print,
    Halt,
}

/// Byte `k` (0 = least significant) of the two's complement form of `n`.
pub open spec fn le_byte(n: i64, k: u64) -> u8 {
    ((n as u64) >> (8 * k)) as u8
}

/// The eight little-endian bytes of `n`.
pub open spec fn le_bytes(n: i64) -> Seq<u8> {
    seq![le_byte(n, 0), le_byte(n, 1), le_byte(n, 2), le_byte(n, 3),
         le_byte(n, 4), le_byte(n, 5), le_byte(n, 6), le_byte(n, 7)]
}

/// The opcode byte of an instruction.
pub open spec fn opcode(op: Op) -> u8 {
    match op {
        Op::Push(_) => OP_PUSH,
        Op::Pop => OP_POP,
        Op::Dup => OP_DUP,
        Op::Swap => OP_SWAP,
        Op::Add => OP_ADD,
        Op::Sub => OP_SUB,
        Op::Mul => OP_MUL,
        Op::Div => OP_DIV,
        Op::Mod => OP_MOD,
        Op::Neg => OP_NEG,
        Op::Load(_) => OP_LOAD,
        Op::Store(_) => OP_STORE,
        Op::Print => OP_PRINT,
        Op::Halt => OP_HALT,
    }
}

/// The bytecode of one instruction: its opcode, then its operand if any.
pub open spec fn spec_encode(op: Op) -> Seq<u8> {
    match op {
        Op::Push(n) => seq![OP_PUSH] + le_bytes(n),
        Op::Load(s) => seq![OP_LOAD, s],
        Op::Store(s) => seq![OP_STORE, s],
        _ => seq![opcode(op)],
    }
}

/// Encode an instruction to its bytecode (little-endian operands).
pub fn encode(op: &Op) -> (bytes: Vec<u8>)
    ensures
        bytes@ == spec_encode(*op),
{
    match op {
        Op::Push(n) => {
            let u: u64 = #[verifier::truncate] (*n as u64);
            let mut v: Vec<u8> = Vec::new();
            v.push(OP_PUSH);
            v.push(#[verifier::truncate] ((u >> 0u64) as u8));
            v.push(#[verifier::truncate] ((u >> 8u64) as u8));
            v.push(#[verifier::truncate] ((u >> 16u64) as u8));
            v.push(#[verifier::truncate] ((u >> 24u64) as u8));
            v.push(#[verifier::truncate] ((u >> 32u64) as u8));
            v.push(#[verifier::truncate] ((u >> 40u64) as u8));
            v.push(#[verifier::truncate] ((u >> 48u64) as u8));
            v.push(#[verifier::truncate] ((u >> 56u64) as u8));
            assert(v@ =~= spec_encode(*op));
            v
        },
        Op::Pop => vec![OP_POP],
        Op::Dup => vec![OP_DUP],
        Op::Swap => vec![OP_SWAP],
        Op::Add => vec![OP_ADD],
        Op::Sub => vec![OP_SUB],
        Op::Mul => vec![OP_MUL],
        Op::Div => vec![OP_DIV],
        Op::Mod => vec![OP_MOD],
        Op::Neg => vec![OP_NEG],
        Op::Load(s) => vec![OP_LOAD, *s],
        Op::Store(s) => vec![OP_STORE, *s],
        Op::Print => vec![OP_PRINT],
        Op::Halt => vec![OP_HALT],
    }
}

/// Why bytecode at a position is not an instruction.
#[derive(Debug, Clone, PartialEq, Eq, Structural)]
pub enum DecodeError {
    Truncated,
    UnknownOpcode(u8),
    BadSlotOperand,
}

/// The description of a decode error (its `Display` text).
pub open spec fn spec_decode_error_message(e: DecodeError) -> Seq<char> {
    match e {
        DecodeError::Truncated => "truncated instruction"@,
        DecodeError::UnknownOpcode(b) => "unknown opcode 0x"@ + hex_pad(b as nat, 2),
        DecodeError::BadSlotOperand => "bad slot operand"@,
    }
}

impl DecodeError {
    /// The description of the error, such as `unknown opcode 0xEE`.
    pub fn message(&self) -> (text: String)
        ensures
            text@ == spec_decode_error_message(*self),
    {
        match self {
            DecodeError::Truncated => String::from_str("truncated instruction"),
            DecodeError::UnknownOpcode(b) => {
                let mut s = String::from_str("unknown opcode 0x");
                write_hex_padded(&mut s, *b as u64, 2);
                s
            },
            DecodeError::BadSlotOperand => String::from_str("bad slot operand"),
        }
    }
}

/// The value whose little-endian two's complement bytes are `b[0..8]`.
pub open spec fn i64_from_le(b: Seq<u8>) -> i64 {
    ((b[0] as u64) | ((b[1] as u64) << 8u64) | ((b[2] as u64) << 16u64) | ((b[3] as u64) << 24u64)
        | ((b[4] as u64) << 32u64) | ((b[5] as u64) << 40u64) | ((b[6] as u64) << 48u64)
        | ((b[7] as u64) << 56u64)) as i64
}

/// The instruction without operand whose opcode is `b`, if any.
pub open spec fn nullary_op(b: u8) -> Option<Op> {
    if b == OP_POP { Some(Op::Pop)
    } else if b == OP_DUP { Some(Op::Dup)
    } else if b == OP_SWAP { Some(Op::Swap)
    } else if b == OP_ADD { Some(Op::Add)
    } else if b == OP_SUB { Some(Op::Sub)
    } else if b == OP_MUL { Some(Op::Mul)
    } else if b == OP_DIV { Some(Op::Div)
    } else if b == OP_MOD { Some(Op::Mod)
    } else if b == OP_NEG { Some(Op::Neg)
    } else if b == OP_PRINT { Some(Op::Print)
    } else if b == OP_HALT { Some(Op::Halt)
    } else { None }
}

/// The instruction at byte offset `ip` of `code` and its length in bytes.
pub open spec fn spec_decode(code: Seq<u8>, ip: int) -> Result<(Op, usize), DecodeError> {
    if ip < 0 || ip >= code.len() {
        Err(DecodeError::Truncated)
    } else {
        let b = code[ip];
        if b == OP_PUSH {
            if ip + 9 <= code.len() {
                Ok((Op::Push(i64_from_le(code.subrange(ip + 1, ip + 9))), 9usize))
            } else {
                Err(DecodeError::Truncated)
            }
        } else if b == OP_LOAD || b == OP_STORE {
            if ip + 2 <= code.len() {
                Ok((if b == OP_LOAD { Op::Load(code[ip + 1]) } else { Op::Store(code[ip + 1]) }, 2usize))
            } else {
                Err(DecodeError::Truncated)
            }
        } else {
            match nullary_op(b) {
                Some(op) => Ok((op, 1usize)),
                None => Err(DecodeError::UnknownOpcode(b)),
            }
        }
    }
}

/// Decode the instruction at byte offset `ip` of `code`; returns it and the
/// number of bytes it occupies.
pub fn decode(code: &[u8], ip: usize) -> (res: Result<(Op, usize), DecodeError>)
    ensures
        res == spec_decode(code@, ip as int),
{
    if ip >= code.len() {
        return Err(DecodeError::Truncated);
    }
    let opc = code[ip];
    if opc == OP_PUSH {
        if code.len() - ip < 9 {
            return Err(DecodeError::Truncated);
        }
        let u: u64 = (code[ip + 1] as u64) | ((code[ip + 2] as u64) << 8u64) | ((code[ip + 3] as u64)
            << 16u64) | ((code[ip + 4] as u64) << 24u64) | ((code[ip + 5] as u64) << 32u64) | ((
        code[ip + 6] as u64) << 40u64) | ((code[ip + 7] as u64) << 48u64) | ((code[ip + 8] as u64)
            << 56u64);
        let n: i64 = #[verifier::truncate] (u as i64);
        proof {
            let b = code@.subrange(ip + 1, ip + 9);
            assert(b[0] == code@[ip + 1] && b[1] == code@[ip + 2] && b[2] == code@[ip + 3] && b[3]
                == code@[ip + 4] && b[4] == code@[ip + 5] && b[5] == code@[ip + 6] && b[6]
                == code@[ip + 7] && b[7] == code@[ip + 8]);
        }
        Ok((Op::Push(n), 9))
    } else if opc == OP_LOAD || opc == OP_STORE {
        if code.len() - ip < 2 {
            return Err(DecodeError::Truncated);
        }
        let s = code[ip + 1];
        if opc == OP_LOAD {
            Ok((Op::Load(s), 2))
        } else {
            Ok((Op::Store(s), 2))
        }
    } else if opc == OP_POP {
        Ok((Op::Pop, 1))
    } else if opc == OP_DUP {
        Ok((Op::Dup, 1))
    } else if opc == OP_SWAP {
        Ok((Op::Swap, 1))
    } else if opc == OP_ADD {
        Ok((Op::Add, 1))
    } else if opc == OP_SUB {
        Ok((Op::Sub, 1))
    } else if opc == OP_MUL {
        Ok((Op::Mul, 1))
    } else if opc == OP_DIV {
        Ok((Op::Div, 1))
    } else if opc == OP_MOD {
        Ok((Op::Mod, 1))
    } else if opc == OP_NEG {
        Ok((Op::Neg, 1))
    } else if opc == OP_PRINT {
        Ok((Op::Print, 1))
    } else if opc == OP_HALT {
        Ok((Op::Halt, 1))
    } else {
        Err(DecodeError::UnknownOpcode(opc))
    }
}

/// Reading back the eight bytes of a value gives the value.
pub proof fn lemma_le_bytes_roundtrip(n: i64)
    ensures
        i64_from_le(le_bytes(n)) == n,
{
    let b = le_bytes(n);
    assert(b[0] == le_byte(n, 0) && b[7] == le_byte(n, 7));
    assert((((((n as u64) >> 0u64) as u8) as u64) | (((((n as u64) >> 8u64) as u8) as u64) << 8u64)
        | (((((n as u64) >> 16u64) as u8) as u64) << 16u64) | (((((n as u64) >> 24u64) as u8) as u64)
        << 24u64) | (((((n as u64) >> 32u64) as u8) as u64) << 32u64) | (((((n as u64) >> 40u64)
        as u8) as u64) << 40u64) | (((((n as u64) >> 48u64) as u8) as u64) << 48u64) | (((((n as u64)
        >> 56u64) as u8) as u64) << 56u64)) as i64 == n) by (bit_vector);
}

/// Writing the eight bytes of the value that bytes denote gives the bytes back.
pub proof fn lemma_i64_from_le_roundtrip(b: Seq<u8>)
    requires
        b.len() == 8,
    ensures
        le_bytes(i64_from_le(b)) =~= b,
{
    let (b0, b1, b2, b3, b4, b5, b6, b7) = (b[0], b[1], b[2], b[3], b[4], b[5], b[6], b[7]);
    let u: u64 = (b0 as u64) | ((b1 as u64) << 8u64) | ((b2 as u64) << 16u64) | ((b3 as u64)
        << 24u64) | ((b4 as u64) << 32u64) | ((b5 as u64) << 40u64) | ((b6 as u64) << 48u64) | ((
    b7 as u64) << 56u64);
    assert(((u as i64) as u64) == u) by (bit_vector);
    assert((u >> 0u64) as u8 == b0 && (u >> 8u64) as u8 == b1 && (u >> 16u64) as u8 == b2 && (u
        >> 24u64) as u8 == b3 && (u >> 32u64) as u8 == b4 && (u >> 40u64) as u8 == b5 && (u
        >> 48u64) as u8 == b6 && (u >> 56u64) as u8 == b7) by (bit_vector)
        requires
            u == (b0 as u64) | ((b1 as u64) << 8u64) | ((b2 as u64) << 16u64) | ((b3 as u64)
                << 24u64) | ((b4 as u64) << 32u64) | ((b5 as u64) << 40u64) | ((b6 as u64)
                << 48u64) | ((b7 as u64) << 56u64),
    ;
}

// ------------------------------------------------------------ assembly text

/// The mnemonic of an instruction, in upper case.
pub open spec fn spec_mnemonic(op: Op) -> Seq<char> {
    match op {
        Op::Push(_) => "PUSH"@,
        Op::Pop => "POP"@,
        Op::Dup => "DUP"@,
        Op::Swap => "SWAP"@,
        Op::Add => "ADD"@,
        Op::Sub => "SUB"@,
        Op::Mul => "MUL"@,
        Op::Div => "DIV"@,
        Op::Mod => "MOD"@,
        Op::Neg => "NEG"@,
        Op::Load(_) => "LOAD"@,
        Op::Store(_) => "STORE"@,
        Op::Print => "PRINT"@,
        Op::Halt => "HALT"@,
    }
}

/// The mnemonic of an instruction.
pub fn mnemonic(op: &Op) -> (s: &'static str)
    ensures
        s@ == spec_mnemonic(*op),
{
    match op {
        Op::Push(_) => "PUSH",
        Op::Pop => "POP",
        Op::Dup => "DUP",
        Op::Swap => "SWAP",
        Op::Add => "ADD",
        Op::Sub => "SUB",
        Op::Mul => "MUL",
        Op::Div => "DIV",
        Op::Mod => "MOD",
        Op::Neg => "NEG",
        Op::Load(_) => "LOAD",
        Op::Store(_) => "STORE",
        Op::Print => "PRINT",
        Op::Halt => "HALT",
    }
}

/// The canonical assembly text of an instruction: the mnemonic, then one
/// space and the operand in decimal if it has one.
pub open spec fn spec_disasm(op: Op) -> Seq<char> {
    match op {
        Op::Push(n) => spec_mnemonic(op) + seq![' '] + dec_int(n as int),
        Op::Load(s) => spec_mnemonic(op) + seq![' '] + dec_nat(s as nat),
        Op::Store(s) => spec_mnemonic(op) + seq![' '] + dec_nat(s as nat),
        _ => spec_mnemonic(op),
    }
}

/// Disassemble a single instruction to its canonical assembly text.
pub fn disasm(op: &Op) -> (text: String)
    ensures
        text@ == spec_disasm(*op),
{
    let mut s = String::from_str(mnemonic(op));
    match op {
        Op::Push(n) => {
            push_char(&mut s, ' ');
            write_dec_i64(&mut s, *n);
        },
        Op::Load(slot) => {
            push_char(&mut s, ' ');
            write_dec_u64(&mut s, *slot as u64);
        },
        Op::Store(slot) => {
            push_char(&mut s, ' ');
            write_dec_u64(&mut s, *slot as u64);
        },
        _ => {},
    }
    s
}

/// The index of the first whitespace character of `s`, or its length.
pub open spec fn first_ws(s: Seq<char>) -> int
    decreases s.len(),
{
    if s.len() == 0 || is_ws(s[0]) {
        0
    } else {
        1 + first_ws(s.drop_first())
    }
}

/// The instruction without operand whose mnemonic is `name`, if any.
pub open spec fn named_nullary(name: Seq<char>) -> Option<Op> {
    if name == spec_mnemonic(Op::Pop) { Some(Op::Pop)
    } else if name == spec_mnemonic(Op::Dup) { Some(Op::Dup)
    } else if name == spec_mnemonic(Op::Swap) { Some(Op::Swap)
    } else if name == spec_mnemonic(Op::Add) { Some(Op::Add)
    } else if name == spec_mnemonic(Op::Sub) { Some(Op::Sub)
    } else if name == spec_mnemonic(Op::Mul) { Some(Op::Mul)
    } else if name == spec_mnemonic(Op::Div) { Some(Op::Div)
    } else if name == spec_mnemonic(Op::Mod) { Some(Op::Mod)
    } else if name == spec_mnemonic(Op::Neg) { Some(Op::Neg)
    } else if name == spec_mnemonic(Op::Print) { Some(Op::Print)
    } else if name == spec_mnemonic(Op::Halt) { Some(Op::Halt)
    } else { None }
}

/// An instruction without operand accepts an absent or empty operand.
pub open spec fn spec_require_no_operand(name: Seq<char>, operand: Option<Seq<char>>) -> Result<(), Seq<char>> {
    match operand {
        None => Ok(()),
        Some(o) => if o.len() == 0 {
            Ok(())
        } else {
            Err(name + " takes no operand, got '"@ + o + "'"@)
        },
    }
}

/// A global slot operand: a decimal integer in `0..=255`.
pub open spec fn spec_parse_slot(operand: Option<Seq<char>>) -> Result<u8, Seq<char>> {
    match operand {
        None => Err("slot operand required"@),
        Some(o) => {
            let t = trim(o);
            match spec_parse_i64(t) {
                Err(e) => Err("invalid slot '"@ + t + "': "@ + int_error_message(e)),
                Ok(n) => if n < 0 || n > 255 {
                    Err("slot "@ + dec_int(n as int) + " out of range [0, 255]"@)
                } else {
                    Ok(n as u8)
                },
            }
        },
    }
}

/// An instruction from its upper-cased mnemonic and its trimmed operand.
pub open spec fn parse_parts(name: Seq<char>, operand: Option<Seq<char>>) -> Result<Op, Seq<char>> {
    if name == spec_mnemonic(Op::Push(0)) {
        match operand {
            None => Err("PUSH requires an i64 operand"@),
            Some(o) => match spec_parse_i64(o) {
                Ok(n) => Ok(Op::Push(n)),
                Err(e) => Err("invalid PUSH operand: "@ + int_error_message(e)),
            },
        }
    } else if name == spec_mnemonic(Op::Load(0)) {
        match spec_parse_slot(operand) {
            Ok(s) => Ok(Op::Load(s)),
            Err(m) => Err(m),
        }
    } else if name == spec_mnemonic(Op::Store(0)) {
        match spec_parse_slot(operand) {
            Ok(s) => Ok(Op::Store(s)),
            Err(m) => Err(m),
        }
    } else {
        match named_nullary(name) {
            Some(op) => match spec_require_no_operand(name, operand) {
                Ok(_) => Ok(op),
                Err(m) => Err(m),
            },
            None => Err("unknown mnemonic '"@ + name + "'"@),
        }
    }
}

/// One line of assembly (no comment): surrounding whitespace is ignored,
/// the mnemonic runs to the first whitespace character and is read without
/// regard to ASCII case, and the rest, trimmed, is the operand. On failure
/// the result is the error message.
pub open spec fn spec_parse_line(line: Seq<char>) -> Result<Op, Seq<char>> {
    let t = trim(line);
    if t.len() == 0 {
        Err("empty line"@)
    } else {
        let k = first_ws(t);
        let name = ascii_upper(t.subrange(0, k));
        let operand = if k < t.len() {
            Some(trim(t.subrange(k + 1, t.len() as int)))
        } else {
            None
        };
        parse_parts(name, operand)
    }
}

/// Whether the characters `a` are those of `s`.
fn chars_eq_str(a: &Vec<char>, s: &str) -> (b: bool)
    ensures
        b == (a@ == s@),
{
    let c = chars_of(s);
    if a.len() != c.len() {
        return false;
    }
    let mut i: usize = 0;
    while i < a.len()
        invariant
            a@.len() == c@.len(),
            c@ == s@,
            0 <= i <= a@.len(),
            forall|j: int| 0 <= j < i ==> a@[j] == c@[j],
        decreases a@.len() - i,
    {
        if a[i] != c[i] {
            assert(a@[i as int] != s@[i as int]);
            return false;
        }
        i += 1;
    }
    assert(a@ =~= c@);
    true
}

/// An instruction without operand accepts an absent or empty operand.
fn require_no_operand(name: &Vec<char>, v: &Vec<char>, operand: Option<(usize, usize)>) -> (res: Result<(), String>)
    requires
        operand matches Some((a, b)) ==> a <= b <= v@.len(),
    ensures
        ({
            let o = match operand {
                Some((a, b)) => Some(v@.subrange(a as int, b as int)),
                None => None,
            };
            match res {
                Ok(_) => spec_require_no_operand(name@, o) is Ok,
                Err(m) => spec_require_no_operand(name@, o) == Err::<(), Seq<char>>(m@),
            }
        }),
{
    match operand {
        None => Ok(()),
        Some((a, b)) => {
            if a == b {
                Ok(())
            } else {
                let mut m = String::new();
                push_range(&mut m, name, 0, name.len());
                m.append(" takes no operand, got '");
                push_range(&mut m, v, a, b);
                m.append("'");
                assert(name@.subrange(0, name@.len() as int) =~= name@);
                assert(m@ =~= name@ + " takes no operand, got '"@ + v@.subrange(a as int, b as int)
                    + "'"@);
                Err(m)
            }
        },
    }
}

/// Reads a global slot operand.
fn parse_slot(v: &Vec<char>, operand: Option<(usize, usize)>) -> (res: Result<u8, String>)
    requires
        operand matches Some((a, b)) ==> a <= b <= v@.len(),
    ensures
        ({
            let o = match operand {
                Some((a, b)) => Some(v@.subrange(a as int, b as int)),
                None => None,
            };
            match res {
                Ok(s) => spec_parse_slot(o) == Ok::<u8, Seq<char>>(s),
                Err(m) => spec_parse_slot(o) == Err::<u8, Seq<char>>(m@),
            }
        }),
{
    match operand {
        None => Err(String::from_str("slot operand required")),
        Some((a0, b0)) => {
            let (a, b) = trim_range(v, a0, b0);
            assert(v@.subrange(a as int, b as int) == trim(v@.subrange(a0 as int, b0 as int)));
            match parse_i64(v, a, b) {
                Err(e) => {
                    let mut m = String::from_str("invalid slot '");
                    push_range(&mut m, v, a, b);
                    m.append("': ");
                    write_int_error(&mut m, e);
                    assert(m@ =~= "invalid slot '"@ + v@.subrange(a as int, b as int) + "': "@
                        + int_error_message(e));
                    Err(m)
                },
                Ok(n) => {
                    if n < 0 || n > 255 {
                        let mut m = String::from_str("slot ");
                        write_dec_i64(&mut m, n);
                        m.append(" out of range [0, 255]");
                        assert(m@ =~= "slot "@ + dec_int(n as int) + " out of range [0, 255]"@);
                        Err(m)
                    } else {
                        Ok(n as u8)
                    }
                },
            }
        },
    }
}

/// The instruction on the line `v[lo..hi]` (see `spec_parse_line`).
pub fn parse_chars(v: &Vec<char>, lo: usize, hi: usize) -> (res: Result<Op, String>)
    requires
        lo <= hi <= v@.len(),
    ensures
        match res {
            Ok(op) => spec_parse_line(v@.subrange(lo as int, hi as int)) == Ok::<Op, Seq<char>>(op),
            Err(m) => spec_parse_line(v@.subrange(lo as int, hi as int)) == Err::<Op, Seq<char>>(m@),
        },
{
    let ghost line = v@.subrange(lo as int, hi as int);
    let (a, b) = trim_range(v, lo, hi);
    let ghost t = v@.subrange(a as int, b as int);
    if a == b {
        return Err(String::from_str("empty line"));
    }
    // the mnemonic runs to the first whitespace character
    let mut k: usize = a;
    while k < b && !is_whitespace(v[k])
        invariant
            a <= k <= b <= v@.len(),
            t == v@.subrange(a as int, b as int),
            first_ws(t) == (k - a) + first_ws(v@.subrange(k as int, b as int)),
        decreases b - k,
    {
        assert(v@.subrange(k as int, b as int).drop_first() =~= v@.subrange(k + 1, b as int));
        k += 1;
    }
    assert(first_ws(t) == k - a);
    let mut name: Vec<char> = Vec::new();
    let mut i: usize = a;
    while i < k
        invariant
            a <= i <= k <= b <= v@.len(),
            name@ == ascii_upper(v@.subrange(a as int, i as int)),
        decreases k - i,
    {
        name.push(to_upper(v[i]));
        assert(ascii_upper(v@.subrange(a as int, i + 1)) =~= ascii_upper(v@.subrange(a as int, i as int)).push(upper(v@[i as int])));
        i += 1;
    }
    assert(t.subrange(0, k - a) =~= v@.subrange(a as int, k as int));
    let operand: Option<(usize, usize)> = if k < b {
        let (c, d) = trim_range(v, k + 1, b);
        assert(t.subrange(k - a + 1, t.len() as int) =~= v@.subrange(k + 1, b as int));
        Some((c, d))
    } else {
        None
    };
    let ghost o = match operand {
        Some((c, d)) => Some(v@.subrange(c as int, d as int)),
        None => None,
    };
    assert(spec_parse_line(line) == parse_parts(name@, o));
    if chars_eq_str(&name, "PUSH") {
        match operand {
            None => Err(String::from_str("PUSH requires an i64 operand")),
            Some((c, d)) => match parse_i64(v, c, d) {
                Ok(n) => Ok(Op::Push(n)),
                Err(e) => {
                    let mut m = String::from_str("invalid PUSH operand: ");
                    write_int_error(&mut m, e);
                    Err(m)
                },
            },
        }
    } else if chars_eq_str(&name, "LOAD") {
        match parse_slot(v, operand) {
            Ok(s) => Ok(Op::Load(s)),
            Err(m) => Err(m),
        }
    } else if chars_eq_str(&name, "STORE") {
        match parse_slot(v, operand) {
            Ok(s) => Ok(Op::Store(s)),
            Err(m) => Err(m),
        }
    } else {
        let nullary = if chars_eq_str(&name, "POP") { Some(Op::Pop)
        } else if chars_eq_str(&name, "DUP") { Some(Op::Dup)
        } else if chars_eq_str(&name, "SWAP") { Some(Op::Swap)
        } else if chars_eq_str(&name, "ADD") { Some(Op::Add)
        } else if chars_eq_str(&name, "SUB") { Some(Op::Sub)
        } else if chars_eq_str(&name, "MUL") { Some(Op::Mul)
        } else if chars_eq_str(&name, "DIV") { Some(Op::Div)
        } else if chars_eq_str(&name, "MOD") { Some(Op::Mod)
        } else if chars_eq_str(&name, "NEG") { Some(Op::Neg)
        } else if chars_eq_str(&name, "PRINT") { Some(Op::Print)
        } else if chars_eq_str(&name, "HALT") { Some(Op::Halt)
        } else { None };
        assert(nullary == named_nullary(name@));
        match nullary {
            Some(op) => match require_no_operand(&name, v, operand) {
                Ok(_) => Ok(op),
                Err(m) => Err(m),
            },
            None => {
                let mut m = String::from_str("unknown mnemonic '");
                push_range(&mut m, &name, 0, name.len());
                m.append("'");
                assert(name@.subrange(0, name@.len() as int) =~= name@);
                assert(m@ =~= "unknown mnemonic '"@ + name@ + "'"@);
                Err(m)
            },
        }
    }
}

/// Parse a single assembly instruction (see `spec_parse_line`); on failure
/// the error is a description of what is wrong.
pub fn parse_line(line: &str) -> (res: Result<Op, String>)
    ensures
        match res {
            Ok(op) => spec_parse_line(line@) == Ok::<Op, Seq<char>>(op),
            Err(m) => spec_parse_line(line@) == Err::<Op, Seq<char>>(m@),
        },
{
    let v = chars_of(line);
    assert(v@.subrange(0, v@.len() as int) =~= v@);
    parse_chars(&v, 0, v.len())
}

// --------------------------------------------------- text round trip laws

/// Whether `s` is a non-empty run of ASCII upper-case letters.
pub open spec fn upper_word(s: Seq<char>) -> bool {
    s.len() > 0 && forall|i: int| 0 <= i < s.len() ==> 'A' <= #[trigger] s[i] && s[i] <= 'Z'
}

proof fn lemma_mnemonic_word(op: Op)
    ensures
        upper_word(spec_mnemonic(op)),
{
    reveal_strlit("PUSH");
    reveal_strlit("POP");
    reveal_strlit("DUP");
    reveal_strlit("SWAP");
    reveal_strlit("ADD");
    reveal_strlit("SUB");
    reveal_strlit("MUL");
    reveal_strlit("DIV");
    reveal_strlit("MOD");
    reveal_strlit("NEG");
    reveal_strlit("LOAD");
    reveal_strlit("STORE");
    reveal_strlit("PRINT");
    reveal_strlit("HALT");
}

/// Distinct instruction kinds have distinct mnemonics.
proof fn lemma_mnemonics_distinct()
    ensures
        forall|a: Op, b: Op|
            #![trigger spec_mnemonic(a), spec_mnemonic(b)]
            spec_mnemonic(a) == spec_mnemonic(b) ==> opcode(a) == opcode(b),
{
    reveal_strlit("PUSH");
    reveal_strlit("POP");
    reveal_strlit("DUP");
    reveal_strlit("SWAP");
    reveal_strlit("ADD");
    reveal_strlit("SUB");
    reveal_strlit("MUL");
    reveal_strlit("DIV");
    reveal_strlit("MOD");
    reveal_strlit("NEG");
    reveal_strlit("LOAD");
    reveal_strlit("STORE");
    reveal_strlit("PRINT");
    reveal_strlit("HALT");
    assert forall|a: Op, b: Op|
        #![trigger spec_mnemonic(a), spec_mnemonic(b)]
        spec_mnemonic(a) == spec_mnemonic(b) implies opcode(a) == opcode(b) by {
        if opcode(a) != opcode(b) {
            let x = spec_mnemonic(a);
            let y = spec_mnemonic(b);
            if x.len() == y.len() {
                assert(x[0] != y[0] || x[1] != y[1] || x[2] != y[2]);
            }
        }
    }
}

proof fn lemma_upper_word_fixed(s: Seq<char>)
    requires
        upper_word(s),
    ensures
        ascii_upper(s) == s,
        forall|i: int| 0 <= i < s.len() ==> !is_ws(#[trigger] s[i]),
{
    assert forall|i: int| 0 <= i < s.len() implies upper(s[i]) == s[i] by {
        assert('A' <= s[i] && s[i] <= 'Z');
    }
    assert(ascii_upper(s) =~= s);
}

proof fn lemma_first_ws_word(s: Seq<char>, rest: Seq<char>)
    requires
        forall|i: int| 0 <= i < s.len() ==> !is_ws(#[trigger] s[i]),
    ensures
        first_ws(s + seq![' '] + rest) == s.len(),
        first_ws(s) == s.len(),
    decreases s.len(),
{
    if s.len() > 0 {
        let t = s.drop_first();
        assert forall|i: int| 0 <= i < t.len() implies !is_ws(#[trigger] t[i]) by {
            assert(t[i] == s[i + 1]);
        }
        lemma_first_ws_word(t, rest);
        assert((s + seq![' '] + rest).drop_first() =~= t + seq![' '] + rest);
        assert((s + seq![' '] + rest)[0] == s[0]);
    } else {
        assert((s + seq![' '] + rest)[0] == ' ');
    }
}

proof fn lemma_trim_fixed(s: Seq<char>)
    requires
        s.len() > 0,
        !is_ws(s[0]),
        !is_ws(s.last()),
    ensures
        trim(s) == s,
{
}

/// The digits of a decimal form, or its sign, are never whitespace.
proof fn lemma_dec_int_shape(n: int)
    ensures
        dec_int(n).len() > 0,
        forall|i: int| 0 <= i < dec_int(n).len() ==> !is_ws(#[trigger] dec_int(n)[i]),
        n >= 0 ==> dec_int(n) == dec_nat(n as nat),
{
    if n < 0 {
        lemma_dec_nat_digits((-n) as nat);
        assert forall|i: int| 0 <= i < dec_int(n).len() implies !is_ws(#[trigger] dec_int(n)[i]) by {
            if i > 0 {
                assert(dec_int(n)[i] == dec_nat((-n) as nat)[i - 1]);
                assert(is_digit(dec_nat((-n) as nat)[i - 1]));
            }
        }
    } else {
        lemma_dec_nat_digits(n as nat);
        assert forall|i: int| 0 <= i < dec_int(n).len() implies !is_ws(#[trigger] dec_int(n)[i]) by {
            assert(is_digit(dec_nat(n as nat)[i]));
        }
    }
}

/// The canonical text of an instruction holds no whitespace at either end,
/// no line break and no comment marker.
pub proof fn lemma_disasm_shape(op: Op)
    ensures
        spec_disasm(op).len() > 0,
        !is_ws(spec_disasm(op)[0]),
        !is_ws(spec_disasm(op).last()),
        forall|i: int| 0 <= i < spec_disasm(op).len() ==> #[trigger] spec_disasm(op)[i] != '\n'
            && spec_disasm(op)[i] != ';',
{
    let m = spec_mnemonic(op);
    lemma_mnemonic_word(op);
    lemma_upper_word_fixed(m);
    let d = spec_disasm(op);
    let operand: Seq<char> = match op {
        Op::Push(n) => dec_int(n as int),
        Op::Load(s) => dec_int(s as int),
        Op::Store(s) => dec_int(s as int),
        _ => Seq::empty(),
    };
    match op {
        Op::Push(n) => lemma_dec_int_shape(n as int),
        Op::Load(s) => lemma_dec_int_shape(s as int),
        Op::Store(s) => lemma_dec_int_shape(s as int),
        _ => {},
    }
    if operand.len() > 0 {
        assert(d =~= m + seq![' '] + operand);
        assert(d.last() == operand.last());
        assert forall|i: int| 0 <= i < d.len() implies #[trigger] d[i] != '\n' && d[i] != ';' by {
            if i < m.len() {
                assert(d[i] == m[i]);
                assert('A' <= m[i] && m[i] <= 'Z');
            } else if i > m.len() {
                assert(d[i] == operand[i - m.len() - 1]);
                assert(!is_ws(operand[i - m.len() - 1]));
                match op {
                    Op::Push(n) => {
                        if n >= 0 || i > m.len() + 1 {
                            lemma_dec_nat_digits(if n >= 0 { n as nat } else { (-n) as nat });
                            if n < 0 {
                                assert(operand[i - m.len() - 1] == dec_nat((-n) as nat)[i - m.len() - 2]);
                                assert(is_digit(dec_nat((-n) as nat)[i - m.len() - 2]));
                            } else {
                                assert(is_digit(dec_nat(n as nat)[i - m.len() - 1]));
                            }
                        }
                    },
                    Op::Load(s) => {
                        lemma_dec_nat_digits(s as nat);
                        assert(is_digit(dec_nat(s as nat)[i - m.len() - 1]));
                    },
                    Op::Store(s) => {
                        lemma_dec_nat_digits(s as nat);
                        assert(is_digit(dec_nat(s as nat)[i - m.len() - 1]));
                    },
                    _ => {},
                }
            }
        }
    } else {
        assert(d == m);
        assert forall|i: int| 0 <= i < d.len() implies #[trigger] d[i] != '\n' && d[i] != ';' by {
            assert('A' <= m[i] && m[i] <= 'Z');
        }
    }
}

/// Reading back the canonical text of an instruction gives the instruction.
pub proof fn lemma_parse_disasm(op: Op)
    ensures
        spec_parse_line(spec_disasm(op)) == Ok::<Op, Seq<char>>(op),
{
    let m = spec_mnemonic(op);
    let d = spec_disasm(op);
    lemma_mnemonic_word(op);
    lemma_upper_word_fixed(m);
    lemma_disasm_shape(op);
    lemma_mnemonics_distinct();
    lemma_trim_fixed(d);
    assert(trim(d) == d);
    let operand: Seq<char> = match op {
        Op::Push(n) => dec_int(n as int),
        Op::Load(s) => dec_int(s as int),
        Op::Store(s) => dec_int(s as int),
        _ => Seq::empty(),
    };
    match op {
        Op::Push(n) => lemma_dec_int_shape(n as int),
        Op::Load(s) => lemma_dec_int_shape(s as int),
        Op::Store(s) => lemma_dec_int_shape(s as int),
        _ => {},
    }
    lemma_first_ws_word(m, operand);
    if operand.len() > 0 {
        assert(d =~= m + seq![' '] + operand);
        assert(d.subrange(0, m.len() as int) =~= m);
        assert(d.subrange(m.len() as int + 1, d.len() as int) =~= operand);
        lemma_trim_fixed(operand);
        match op {
            Op::Push(n) => {
                lemma_parse_dec_int(n);
            },
            Op::Load(s) => {
                lemma_parse_dec_int(s as i64);
            },
            Op::Store(s) => {
                lemma_parse_dec_int(s as i64);
            },
            _ => {},
        }
    } else {
        assert(d.subrange(0, m.len() as int) =~= m);
    }
    assert(opcode(Op::Push(0)) == OP_PUSH);
    assert(spec_mnemonic(Op::Push(0)) == spec_mnemonic(op) ==> opcode(op) == OP_PUSH);
}

// ------------------------------------------------------------ file header

/// The magic bytes that open a bytecode file (`MVM\0`).
pub open spec fn magic() -> Seq<u8> {
    seq![0x4Du8, 0x56u8, 0x4Du8, 0x00u8]
}

/// The four little-endian bytes of `n`.
pub open spec fn le_u32_bytes(n: u32) -> Seq<u8> {
    seq![(n >> 0u32) as u8, (n >> 8u32) as u8, (n >> 16u32) as u8, (n >> 24u32) as u8]
}

/// The `u32` whose little-endian bytes are `b[0..4]`.
pub open spec fn u32_from_le(b: Seq<u8>) -> u32 {
    (b[0] as u32) | ((b[1] as u32) << 8u32) | ((b[2] as u32) << 16u32) | ((b[3] as u32) << 24u32)
}

/// The header of a bytecode file holding `len` bytes of code: the magic
/// bytes, the version byte and the code length in little-endian order.
pub open spec fn spec_header(len: u32) -> Seq<u8> {
    magic() + seq![VERSION] + le_u32_bytes(len)
}

/// `b` as a list of two-digit upper-case hexadecimal numbers, without the
/// brackets.
pub open spec fn hex_items(b: Seq<u8>) -> Seq<char>
    decreases b.len(),
{
    if b.len() == 0 {
        Seq::empty()
    } else if b.len() == 1 {
        hex_pad(b[0] as nat, 2)
    } else {
        hex_items(b.drop_last()) + ", "@ + hex_pad(b.last() as nat, 2)
    }
}

/// `b` as a bracketed list of two-digit upper-case hexadecimal numbers
/// (`{:02X?}`).
pub open spec fn hex_list(b: Seq<u8>) -> Seq<char> {
    "["@ + hex_items(b) + "]"@
}

/// What `parse_header` makes of a file: the code that its header
/// announces, or why the file is refused.
pub open spec fn spec_parse_header(bytes: Seq<u8>) -> Result<Seq<u8>, Seq<char>> {
    if bytes.len() < HEADER_LEN {
        Err("file too short for header"@)
    } else if bytes.subrange(0, 4) != magic() {
        Err("bad magic: expected "@ + hex_list(magic()) + " got "@ + hex_list(bytes.subrange(0, 4)))
    } else if bytes[4] != VERSION {
        Err("unsupported version 0x"@ + hex_pad(bytes[4] as nat, 2))
    } else {
        let len = u32_from_le(bytes.subrange(5, 9));
        if bytes.len() < HEADER_LEN + len {
            Err("truncated body: header says "@ + dec_nat(len as nat) + " bytes of code but file has "@
                + dec_nat((bytes.len() - HEADER_LEN) as nat))
        } else {
            Ok(bytes.subrange(HEADER_LEN as int, HEADER_LEN + len))
        }
    }
}

/// Appends `b` as a bracketed list of two-digit hexadecimal numbers.
fn write_hex_list(s: &mut String, b: &[u8])
    ensures
        final(s)@ == old(s)@ + hex_list(b@),
{
    s.append("[");
    let mut i: usize = 0;
    while i < b.len()
        invariant
            0 <= i <= b@.len(),
            s@ == old(s)@ + "["@ + hex_items(b@.subrange(0, i as int)),
        decreases b@.len() - i,
    {
        let ghost prev = b@.subrange(0, i as int);
        assert(b@.subrange(0, i + 1).drop_last() =~= prev);
        if i > 0 {
            s.append(", ");
        }
        write_hex_padded(s, b[i] as u64, 2);
        i += 1;
        assert(s@ =~= old(s)@ + "["@ + hex_items(b@.subrange(0, i as int)));
    }
    s.append("]");
    assert(b@.subrange(0, b@.len() as int) =~= b@);
    assert(s@ =~= old(s)@ + hex_list(b@));
}

/// Validate a file header and return the code that follows it.
pub fn parse_header(bytes: &[u8]) -> (res: Result<&[u8], String>)
    ensures
        match res {
            Ok(code) => spec_parse_header(bytes@) == Ok::<Seq<u8>, Seq<char>>(code@),
            Err(m) => spec_parse_header(bytes@) == Err::<Seq<u8>, Seq<char>>(m@),
        },
{
    if bytes.len() < HEADER_LEN {
        return Err(String::from_str("file too short for header"));
    }
    let head = slice_subrange(bytes, 0, 4);
    if !(bytes[0] == MAGIC[0] && bytes[1] == MAGIC[1] && bytes[2] == MAGIC[2] && bytes[3] == MAGIC[3]) {
        let mut m = String::from_str("bad magic: expected ");
        let expected: [u8; 4] = MAGIC;
        write_hex_list(&mut m, expected.as_slice());
        m.append(" got ");
        write_hex_list(&mut m, head);
        assert(expected@ =~= magic());
        assert(head@ != magic()) by {
            assert(head@[0] == bytes@[0] && head@[1] == bytes@[1] && head@[2] == bytes@[2] && head@[3] == bytes@[3]);
        }
        assert(m@ =~= "bad magic: expected "@ + hex_list(magic()) + " got "@ + hex_list(bytes@.subrange(0, 4)));
        return Err(m);
    }
    assert(bytes@.subrange(0, 4) =~= magic());
    if bytes[4] != VERSION {
        let mut m = String::from_str("unsupported version 0x");
        write_hex_padded(&mut m, bytes[4] as u64, 2);
        return Err(m);
    }
    let len: u32 = (bytes[5] as u32) | ((bytes[6] as u32) << 8u32) | ((bytes[7] as u32) << 16u32)
        | ((bytes[8] as u32) << 24u32);
    let ghost lb = bytes@.subrange(5, 9);
    assert(lb[0] == bytes@[5] && lb[1] == bytes@[6] && lb[2] == bytes@[7] && lb[3] == bytes@[8]);
    assert(len == u32_from_le(lb));
    if bytes.len() - HEADER_LEN < len as usize {
        let mut m = String::from_str("truncated body: header says ");
        write_dec_u64(&mut m, len as u64);
        m.append(" bytes of code but file has ");
        write_dec_u64(&mut m, (bytes.len() - HEADER_LEN) as u64);
        return Err(m);
    }
    Ok(slice_subrange(bytes, HEADER_LEN, HEADER_LEN + len as usize))
}

/// Reading back the length bytes of a header gives the length.
pub proof fn lemma_u32_le_roundtrip(n: u32)
    ensures
        u32_from_le(le_u32_bytes(n)) == n,
{
    let b = le_u32_bytes(n);
    assert(b[0] == (n >> 0u32) as u8 && b[1] == (n >> 8u32) as u8 && b[2] == (n >> 16u32) as u8 && b[3] == (n >> 24u32) as u8);
    assert(((((n >> 0u32) as u8) as u32) | ((((n >> 8u32) as u8) as u32) << 8u32) | ((((n >> 16u32) as u8) as u32) << 16u32)
        | ((((n >> 24u32) as u8) as u32) << 24u32)) == n) by (bit_vector);
}

// ------------------------------------------------------ byte round trip laws

/// Decoding the bytecode of an instruction, wherever it stands in a buffer,
/// gives the instruction and the length of its bytecode.
pub proof fn lemma_decode_encode(pre: Seq<u8>, op: Op, post: Seq<u8>)
    ensures
        spec_decode(pre + spec_encode(op) + post, pre.len() as int) == Ok::<(Op, usize), DecodeError>(
            (op, spec_encode(op).len() as usize),
        ),
{
    let e = spec_encode(op);
    let code = pre + e + post;
    let ip = pre.len() as int;
    assert(code[ip] == e[0]);
    match op {
        Op::Push(n) => {
            assert(code.subrange(ip + 1, ip + 9) =~= le_bytes(n));
            lemma_le_bytes_roundtrip(n);
        },
        Op::Load(s) => {
            assert(code[ip + 1] == s);
        },
        Op::Store(s) => {
            assert(code[ip + 1] == s);
        },
        _ => {},
    }
}

/// An instruction decoded from bytecode encodes back to the bytes it was
/// decoded from.
pub proof fn lemma_encode_decode(code: Seq<u8>, ip: int)
    requires
        spec_decode(code, ip) is Ok,
    ensures
        ({
            let (op, n) = spec_decode(code, ip)->Ok_0;
            &&& ip + n <= code.len()
            &&& code.subrange(ip, ip + n) == spec_encode(op)
            &&& n == spec_encode(op).len()
        }),
{
    let (op, n) = spec_decode(code, ip)->Ok_0;
    let b = code[ip];
    if b == OP_PUSH {
        let bytes = code.subrange(ip + 1, ip + 9);
        lemma_i64_from_le_roundtrip(bytes);
        assert(code.subrange(ip, ip + n) =~= spec_encode(op));
    } else if b == OP_LOAD || b == OP_STORE {
        assert(code.subrange(ip, ip + n) =~= spec_encode(op));
    } else {
        assert(code.subrange(ip, ip + n) =~= spec_encode(op));
    }
}

/// Reading the header of a file made of a header for `code`, `code` and
/// anything after it gives `code` back.
pub proof fn lemma_parse_header_roundtrip(code: Seq<u8>, extra: Seq<u8>)
    requires
        code.len() <= u32::MAX,
    ensures
        spec_parse_header(spec_header(code.len() as u32) + code + extra) == Ok::<Seq<u8>, Seq<char>>(code),
{
    let n = code.len() as u32;
    let bytes = spec_header(n) + code + extra;
    assert(bytes.subrange(0, 4) =~= magic());
    assert(bytes[4] == VERSION);
    assert(bytes.subrange(5, 9) =~= le_u32_bytes(n));
    lemma_u32_le_roundtrip(n);
    assert(bytes.subrange(HEADER_LEN as int, HEADER_LEN + n) =~= code);
}

// --------------------------------------------------- parser insensitivity

/// Surrounding whitespace does not change how a line reads.
pub proof fn law_parse_line_ignores_surrounding_whitespace(before: Seq<char>, line: Seq<char>, after: Seq<char>)
    requires
        forall|i: int| 0 <= i < before.len() ==> is_ws(#[trigger] before[i]),
        forall|i: int| 0 <= i < after.len() ==> is_ws(#[trigger] after[i]),
    ensures
        spec_parse_line(before + line + after) == spec_parse_line(line),
{
    lemma_trim_surrounded(before, line, after);
}

proof fn lemma_first_ws_map(t: Seq<char>, f: spec_fn(char) -> char)
    requires
        forall|c: char| #[trigger] is_ws(f(c)) == is_ws(c),
    ensures
        first_ws(t.map_values(f)) == first_ws(t),
    decreases t.len(),
{
    if t.len() > 0 {
        assert(t.map_values(f)[0] == f(t[0]));
        assert(t.map_values(f).drop_first() =~= t.drop_first().map_values(f));
        lemma_first_ws_map(t.drop_first(), f);
    }
}

/// A text that reads as an `i64` is left alone by a mapping that keeps
/// every character but the letters.
proof fn lemma_number_fixed(o: Seq<char>, f: spec_fn(char) -> char)
    requires
        spec_parse_i64(o) is Ok,
        forall|c: char| !is_letter(c) ==> #[trigger] f(c) == c,
    ensures
        o.map_values(f) == o,
{
    lemma_parse_i64_chars(o);
    assert forall|i: int| 0 <= i < o.len() implies o.map_values(f)[i] == o[i] by {
        assert(!is_letter(o[i]));
    }
    assert(o.map_values(f) =~= o);
}

/// A line that reads as an instruction reads the same after a change of
/// letters that keeps whitespace, other characters and the upper-case form.
proof fn lemma_parse_line_map(line: Seq<char>, f: spec_fn(char) -> char)
    requires
        spec_parse_line(line) is Ok,
        forall|c: char| #[trigger] is_ws(f(c)) == is_ws(c),
        forall|c: char| !is_letter(c) ==> #[trigger] f(c) == c,
        forall|c: char| #[trigger] upper(f(c)) == upper(c),
    ensures
        spec_parse_line(line.map_values(f)) == spec_parse_line(line),
{
    let t = trim(line);
    let ml = line.map_values(f);
    lemma_trim_map(line, f);
    let mt = trim(ml);
    assert(mt == t.map_values(f));
    lemma_first_ws_map(t, f);
    let k = first_ws(t);
    assert(0 <= k <= t.len()) by {
        lemma_first_ws_bounds(t);
    }
    let name = ascii_upper(t.subrange(0, k));
    assert(ascii_upper(mt.subrange(0, k)) =~= name) by {
        assert forall|i: int| 0 <= i < k implies #[trigger] ascii_upper(mt.subrange(0, k))[i] == name[i] by {
            assert(mt[i] == f(t[i]));
        }
    }
    if k < t.len() {
        let raw = t.subrange(k + 1, t.len() as int);
        assert(mt.subrange(k + 1, mt.len() as int) =~= raw.map_values(f));
        lemma_trim_map(raw, f);
        let o = trim(raw);
        let mo = trim(raw.map_values(f));
        assert(mo == o.map_values(f));
        if name == spec_mnemonic(Op::Push(0)) {
            lemma_number_fixed(o, f);
        } else if name == spec_mnemonic(Op::Load(0)) || name == spec_mnemonic(Op::Store(0)) {
            lemma_trim_map(o, f);
            lemma_number_fixed(trim(o), f);
            assert(trim(mo) == trim(o));
        } else {
            assert(o.len() == 0);
            assert(mo =~= o);
        }
    }
}

proof fn lemma_first_ws_bounds(t: Seq<char>)
    ensures
        0 <= first_ws(t) <= t.len(),
    decreases t.len(),
{
    if t.len() > 0 {
        lemma_first_ws_bounds(t.drop_first());
    }
}

/// The letters of a line that reads can be in any ASCII case: upper-casing
/// or lower-casing it gives the same instruction.
pub proof fn law_parse_line_ignores_case(line: Seq<char>)
    requires
        spec_parse_line(line) is Ok,
    ensures
        spec_parse_line(ascii_upper(line)) == spec_parse_line(line),
        spec_parse_line(ascii_lower(line)) == spec_parse_line(line),
{
    let fu = |c: char| upper(c);
    let fl = |c: char| lower(c);
    assert forall|c: char| #[trigger] is_ws(fu(c)) == is_ws(c) && (!is_letter(c) ==> fu(c) == c)
        && upper(fu(c)) == upper(c) by {
        lemma_case_char(c);
    }
    assert forall|c: char| #[trigger] is_ws(fl(c)) == is_ws(c) && (!is_letter(c) ==> fl(c) == c)
        && upper(fl(c)) == upper(c) by {
        lemma_case_char(c);
    }
    assert forall|c: char| !is_letter(c) implies #[trigger] fu(c) == c by {
        lemma_case_char(c);
    }
    lemma_parse_line_map(line, fu);
    assert forall|c: char| !is_letter(c) implies #[trigger] fl(c) == c by {
        lemma_case_char(c);
    }
    lemma_parse_line_map(line, fl);
    assert(ascii_upper(line) =~= line.map_values(fu));
    assert(ascii_lower(line) =~= line.map_values(fl));
}

// ------------------------------------------------------ frozen byte tables

/// The frozen opcode table: the first byte of each instruction's bytecode,
/// and its length.
pub proof fn law_opcode_table(op: Op)
    ensures
        spec_encode(op).len() >= 1,
        op is Push ==> spec_encode(op)[0] == 0x01u8 && spec_encode(op).len() == 9,
        op is Pop ==> spec_encode(op) == seq![0x02u8],
        op is Dup ==> spec_encode(op) == seq![0x03u8],
        op is Swap ==> spec_encode(op) == seq![0x04u8],
        op is Add ==> spec_encode(op) == seq![0x10u8],
        op is Sub ==> spec_encode(op) == seq![0x11u8],
        op is Mul ==> spec_encode(op) == seq![0x12u8],
        op is Div ==> spec_encode(op) == seq![0x13u8],
        op is Mod ==> spec_encode(op) == seq![0x14u8],
        op is Neg ==> spec_encode(op) == seq![0x15u8],
        op matches Op::Load(k) ==> spec_encode(op) == seq![0x40u8, k],
        op matches Op::Store(k) ==> spec_encode(op) == seq![0x41u8, k],
        op is Print ==> spec_encode(op) == seq![0x60u8],
        op is Halt ==> spec_encode(op) == seq![0xFFu8],
{
}

/// The operand of `PUSH n` is the eight bytes of `n` in two's complement,
/// least significant first: byte `k` is `(n as u64 / 256^k) % 256`.
pub proof fn law_push_operand_bytes(n: i64)
    ensures
        ({
            let e = spec_encode(Op::Push(n));
            let u = n as u64;
            &&& e[1] == (u % 0x100) as u8
            &&& e[2] == ((u / 0x100) % 0x100) as u8
            &&& e[3] == ((u / 0x1_0000) % 0x100) as u8
            &&& e[4] == ((u / 0x100_0000) % 0x100) as u8
            &&& e[5] == ((u / 0x1_0000_0000) % 0x100) as u8
            &&& e[6] == ((u / 0x100_0000_0000) % 0x100) as u8
            &&& e[7] == ((u / 0x1_0000_0000_0000) % 0x100) as u8
            &&& e[8] == ((u / 0x100_0000_0000_0000) % 0x100) as u8
        }),
{
    let u = n as u64;
    assert((u >> 0u64) as u8 == (u % 0x100) as u8 && (u >> 8u64) as u8 == ((u / 0x100) % 0x100) as u8
        && (u >> 16u64) as u8 == ((u / 0x1_0000) % 0x100) as u8 && (u >> 24u64) as u8 == ((u
        / 0x100_0000) % 0x100) as u8) by (bit_vector);
    assert((u >> 32u64) as u8 == ((u / 0x1_0000_0000) % 0x100) as u8 && (u >> 40u64) as u8 == ((u
        / 0x100_0000_0000) % 0x100) as u8 && (u >> 48u64) as u8 == ((u / 0x1_0000_0000_0000)
        % 0x100) as u8 && (u >> 56u64) as u8 == ((u / 0x100_0000_0000_0000) % 0x100) as u8)
        by (bit_vector);
}

/// Decoding by the frozen opcode table: each opcode byte gives its
/// instruction and length, `PUSH` reads its operand as the little-endian
/// value of the eight bytes after it, `LOAD`/`STORE` take the next byte as
/// the slot, a cut-off operand is truncated, and any other byte is unknown.
pub proof fn law_decode_table(code: Seq<u8>, ip: int)
    requires
        0 <= ip < code.len(),
    ensures
        ({
            let b = code[ip];
            let d = spec_decode(code, ip);
            &&& b == 0x02 ==> d == Ok::<(Op, usize), DecodeError>((Op::Pop, 1usize))
            &&& b == 0x03 ==> d == Ok::<(Op, usize), DecodeError>((Op::Dup, 1usize))
            &&& b == 0x04 ==> d == Ok::<(Op, usize), DecodeError>((Op::Swap, 1usize))
            &&& b == 0x10 ==> d == Ok::<(Op, usize), DecodeError>((Op::Add, 1usize))
            &&& b == 0x11 ==> d == Ok::<(Op, usize), DecodeError>((Op::Sub, 1usize))
            &&& b == 0x12 ==> d == Ok::<(Op, usize), DecodeError>((Op::Mul, 1usize))
            &&& b == 0x13 ==> d == Ok::<(Op, usize), DecodeError>((Op::Div, 1usize))
            &&& b == 0x14 ==> d == Ok::<(Op, usize), DecodeError>((Op::Mod, 1usize))
            &&& b == 0x15 ==> d == Ok::<(Op, usize), DecodeError>((Op::Neg, 1usize))
            &&& b == 0x60 ==> d == Ok::<(Op, usize), DecodeError>((Op::Print, 1usize))
            &&& b == 0xFF ==> d == Ok::<(Op, usize), DecodeError>((Op::Halt, 1usize))
            &&& (b == 0x40 && ip + 2 <= code.len()) ==> d == Ok::<(Op, usize), DecodeError>((Op::Load(code[ip + 1]), 2usize))
            &&& (b == 0x41 && ip + 2 <= code.len()) ==> d == Ok::<(Op, usize), DecodeError>((Op::Store(code[ip + 1]), 2usize))
            &&& ((b == 0x40 || b == 0x41) && ip + 2 > code.len()) ==> d == Err::<(Op, usize), DecodeError>(DecodeError::Truncated)
            &&& (b == 0x01 && ip + 9 > code.len()) ==> d == Err::<(Op, usize), DecodeError>(DecodeError::Truncated)
            &&& (b == 0x01 && ip + 9 <= code.len()) ==> (d matches Ok((Op::Push(n), k)) && k == 9 && (n as u64) as int
                == code[ip + 1] + 0x100 * code[ip + 2] + 0x1_0000 * code[ip + 3] + 0x100_0000 * code[ip + 4]
                + 0x1_0000_0000 * code[ip + 5] + 0x100_0000_0000 * code[ip + 6] + 0x1_0000_0000_0000
                * code[ip + 7] + 0x100_0000_0000_0000 * code[ip + 8])
            &&& !(b == 0x01 || b == 0x02 || b == 0x03 || b == 0x04 || b == 0x10 || b == 0x11 || b == 0x12 || b == 0x13
                || b == 0x14 || b == 0x15 || b == 0x40 || b == 0x41 || b == 0x60 || b == 0xFF) ==> d == Err::<(Op, usize), DecodeError>(DecodeError::UnknownOpcode(b))
        }),
{
    if code[ip] == 0x01 && ip + 9 <= code.len() {
        let w = code.subrange(ip + 1, ip + 9);
        let (b0, b1, b2, b3, b4, b5, b6, b7) = (w[0], w[1], w[2], w[3], w[4], w[5], w[6], w[7]);
        assert(b0 == code[ip + 1] && b1 == code[ip + 2] && b2 == code[ip + 3] && b3 == code[ip + 4] && b4 == code[ip + 5]
            && b5 == code[ip + 6] && b6 == code[ip + 7] && b7 == code[ip + 8]);
        let u: u64 = (b0 as u64) | ((b1 as u64) << 8u64) | ((b2 as u64) << 16u64) | ((b3 as u64)
            << 24u64) | ((b4 as u64) << 32u64) | ((b5 as u64) << 40u64) | ((b6 as u64) << 48u64) | ((
        b7 as u64) << 56u64);
        assert(((u as i64) as u64) == u) by (bit_vector);
        assert(u as int == b0 + 0x100 * b1 + 0x1_0000 * b2 + 0x100_0000 * b3 + 0x1_0000_0000 * b4
            + 0x100_0000_0000 * b5 + 0x1_0000_0000_0000 * b6 + 0x100_0000_0000_0000 * b7) by (bit_vector)
            requires
                u == (b0 as u64) | ((b1 as u64) << 8u64) | ((b2 as u64) << 16u64) | ((b3 as u64)
                    << 24u64) | ((b4 as u64) << 32u64) | ((b5 as u64) << 40u64) | ((b6 as u64)
                    << 48u64) | ((b7 as u64) << 56u64),
        ;
    }
}

/// The header layout: the magic bytes `4D 56 4D 00`, the version `01`, then
/// the code length in little-endian order: byte `5 + k` is
/// `(len / 256^k) % 256`.
pub proof fn law_header_layout(len: u32)
    ensures
        ({
            let h = spec_header(len);
            &&& h.len() == 9
            &&& h[0] == 0x4Du8 && h[1] == 0x56u8 && h[2] == 0x4Du8 && h[3] == 0x00u8 && h[4] == 0x01u8
            &&& h[5] as int == len % 0x100
            &&& h[6] as int == (len / 0x100) % 0x100
            &&& h[7] as int == (len / 0x1_0000) % 0x100
            &&& h[8] as int == len / 0x100_0000
        }),
{
    assert((len >> 0u32) as u8 == len % 0x100 && (len >> 8u32) as u8 == (len / 0x100) % 0x100
        && (len >> 16u32) as u8 == (len / 0x1_0000) % 0x100 && (len >> 24u32) as u8 == len
        / 0x100_0000) by (bit_vector);
}

/// The header's length field reads as a little-endian number:
/// `b[5] + 256 * b[6] + 65536 * b[7] + 16777216 * b[8]`, and a header that
/// is accepted gives exactly that many code bytes, those after the header.
pub proof fn law_header_length_field(bytes: Seq<u8>)
    requires
        spec_parse_header(bytes) is Ok,
    ensures
        ({
            let len = bytes[5] + 0x100 * bytes[6] + 0x1_0000 * bytes[7] + 0x100_0000 * bytes[8];
            &&& bytes.len() >= 9 + len
            &&& spec_parse_header(bytes) == Ok::<Seq<u8>, Seq<char>>(bytes.subrange(9, 9 + len))
        }),
{
    let w = bytes.subrange(5, 9);
    let (b0, b1, b2, b3) = (w[0], w[1], w[2], w[3]);
    assert(b0 == bytes[5] && b1 == bytes[6] && b2 == bytes[7] && b3 == bytes[8]);
    assert(((b0 as u32) | ((b1 as u32) << 8u32) | ((b2 as u32) << 16u32) | ((b3 as u32) << 24u32)) as int
        == b0 + 0x100 * b1 + 0x1_0000 * b2 + 0x100_0000 * b3) by (bit_vector);
}

/// The mnemonic table: the text of each instruction kind.
pub proof fn law_mnemonic_table(op: Op)
    ensures
        op is Push ==> spec_mnemonic(op) == "PUSH"@,
        op is Pop ==> spec_mnemonic(op) == "POP"@,
        op is Dup ==> spec_mnemonic(op) == "DUP"@,
        op is Swap ==> spec_mnemonic(op) == "SWAP"@,
        op is Add ==> spec_mnemonic(op) == "ADD"@,
        op is Sub ==> spec_mnemonic(op) == "SUB"@,
        op is Mul ==> spec_mnemonic(op) == "MUL"@,
        op is Div ==> spec_mnemonic(op) == "DIV"@,
        op is Mod ==> spec_mnemonic(op) == "MOD"@,
        op is Neg ==> spec_mnemonic(op) == "NEG"@,
        op is Load ==> spec_mnemonic(op) == "LOAD"@,
        op is Store ==> spec_mnemonic(op) == "STORE"@,
        op is Print ==> spec_mnemonic(op) == "PRINT"@,
        op is Halt ==> spec_mnemonic(op) == "HALT"@,
{
}

} // verus!
