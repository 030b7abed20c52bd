use lib::isa::{decode, disasm, encode, parse_header, parse_line, DecodeError, Op, OP_PUSH};

#[test]
fn roundtrip_encode_decode() {
    let ops = vec![
        Op::Push(0),
        Op::Push(-1),
        Op::Push(i64::MIN),
        Op::Push(i64::MAX),
        Op::Pop,
        Op::Dup,
        Op::Swap,
        Op::Add, Op::Sub, Op::Mul, Op::Div, Op::Mod, Op::Neg,
        Op::Load(0),
        Op::Load(255),
        Op::Store(128),
        Op::Print,
        Op::Halt,
    ];
    for op in &ops {
        let bytes = encode(op);
        let (back, consumed) = decode(&bytes, 0).unwrap();
        assert_eq!(*op, back);
        assert_eq!(consumed, bytes.len());
    }
}

#[test]
fn truncated_push() {
    // Only 5 bytes after opcode -> need 8
    let bytes = vec![OP_PUSH, 1, 2, 3, 4, 5];
    assert!(matches!(decode(&bytes, 0), Err(DecodeError::Truncated)));
}

#[test]
fn unknown_opcode() {
    let bytes = vec![0xEE];
    assert!(matches!(decode(&bytes, 0), Err(DecodeError::UnknownOpcode(0xEE))));
}

#[test]
fn roundtrip_asm_text() {
    let cases = [
        "PUSH 7", "PUSH -42", "PUSH 0",
        "POP", "DUP", "SWAP",
        "ADD", "SUB", "MUL", "DIV", "MOD", "NEG",
        "LOAD 0", "LOAD 255",
        "STORE 0", "STORE 128",
        "PRINT", "HALT",
    ];
    for line in &cases {
        let op = parse_line(line).unwrap();
        let back = disasm(&op);
        // Re-parse to confirm canonical form
        let op2 = parse_line(&back).unwrap();
        assert_eq!(op, op2, "roundtrip failed for {}", line);
    }
}

#[test]
fn encode_exact_bytes() {
    assert_eq!(encode(&Op::Push(1)), vec![0x01, 1, 0, 0, 0, 0, 0, 0, 0]);
    assert_eq!(encode(&Op::Push(-1)), vec![0x01, 0xFF, 0xFF, 0xFF, 0xFF, 0xFF, 0xFF, 0xFF, 0xFF]);
    assert_eq!(encode(&Op::Push(0x0102030405060708)), vec![0x01, 8, 7, 6, 5, 4, 3, 2, 1]);
    assert_eq!(encode(&Op::Load(7)), vec![0x40, 7]);
    assert_eq!(encode(&Op::Store(255)), vec![0x41, 255]);
    assert_eq!(encode(&Op::Halt), vec![0xFF]);
    assert_eq!(encode(&Op::Print), vec![0x60]);
    assert_eq!(encode(&Op::Neg), vec![0x15]);
}

#[test]
fn decode_at_offset_and_errors() {
    let code = vec![0x02, 0x40, 9, 0x01, 2, 0, 0, 0, 0, 0, 0, 0, 0xFF];
    assert_eq!(decode(&code, 0), Ok((Op::Pop, 1)));
    assert_eq!(decode(&code, 1), Ok((Op::Load(9), 2)));
    assert_eq!(decode(&code, 3), Ok((Op::Push(2), 9)));
    assert_eq!(decode(&code, 12), Ok((Op::Halt, 1)));
    assert_eq!(decode(&code, 13), Err(DecodeError::Truncated));
    assert_eq!(decode(&code, usize::MAX), Err(DecodeError::Truncated));
    assert_eq!(decode(&[0x41], 0), Err(DecodeError::Truncated));
    assert_eq!(decode(&[0x00], 0), Err(DecodeError::UnknownOpcode(0)));
}

#[test]
fn disasm_canonical_text() {
    assert_eq!(disasm(&Op::Push(-42)), "PUSH -42");
    assert_eq!(disasm(&Op::Push(i64::MIN)), "PUSH -9223372036854775808");
    assert_eq!(disasm(&Op::Push(i64::MAX)), "PUSH 9223372036854775807");
    assert_eq!(disasm(&Op::Load(255)), "LOAD 255");
    assert_eq!(disasm(&Op::Store(0)), "STORE 0");
    assert_eq!(disasm(&Op::Swap), "SWAP");
}

#[test]
fn parse_line_accepts_loose_forms() {
    assert_eq!(parse_line("  push\t 5  "), Ok(Op::Push(5)));
    assert_eq!(parse_line("Push +17"), Ok(Op::Push(17)));
    assert_eq!(parse_line("pop"), Ok(Op::Pop));
    assert_eq!(parse_line("load  12"), Ok(Op::Load(12)));
    assert_eq!(parse_line("PUSH -9223372036854775808"), Ok(Op::Push(i64::MIN)));
    assert_eq!(parse_line("\u{3000}HALT\u{a0}"), Ok(Op::Halt));
}

#[test]
fn parse_line_error_messages() {
    let err = |s: &str| parse_line(s).unwrap_err();
    assert_eq!(err(""), "empty line");
    assert_eq!(err("   "), "empty line");
    assert_eq!(err("jump 3"), "unknown mnemonic 'JUMP'");
    assert_eq!(err("PUSH"), "PUSH requires an i64 operand");
    assert_eq!(err("PUSH abc"), "invalid PUSH operand: invalid digit found in string");
    assert_eq!(err("PUSH -"), "invalid PUSH operand: invalid digit found in string");
    assert_eq!(err("PUSH 1 2"), "invalid PUSH operand: invalid digit found in string");
    assert_eq!(err("PUSH 9223372036854775808"), "invalid PUSH operand: number too large to fit in target type");
    assert_eq!(err("PUSH -9223372036854775809"), "invalid PUSH operand: number too small to fit in target type");
    assert_eq!(err("PUSH 99999999999999999999x"), "invalid PUSH operand: number too large to fit in target type");
    assert_eq!(err("pop 3"), "POP takes no operand, got '3'");
    assert_eq!(err("LOAD"), "slot operand required");
    assert_eq!(err("STORE 256"), "slot 256 out of range [0, 255]");
    assert_eq!(err("LOAD -1"), "slot -1 out of range [0, 255]");
    assert_eq!(err("LOAD x1"), "invalid slot 'x1': invalid digit found in string");
}

#[test]
fn parse_header_accepts_and_refuses() {
    let file = vec![0x4D, 0x56, 0x4D, 0x00, 0x01, 2, 0, 0, 0, 0x02, 0xFF, 0x99];
    assert_eq!(parse_header(&file), Ok(&[0x02u8, 0xFF][..]));
    assert_eq!(parse_header(&file[..5]).unwrap_err(), "file too short for header");
    let mut bad = file.clone();
    bad[1] = 0xAB;
    assert_eq!(parse_header(&bad).unwrap_err(), "bad magic: expected [4D, 56, 4D, 00] got [4D, AB, 4D, 00]");
    let mut ver = file.clone();
    ver[4] = 0x0C;
    assert_eq!(parse_header(&ver).unwrap_err(), "unsupported version 0x0C");
    let mut long = file.clone();
    long[5] = 7;
    assert_eq!(
        parse_header(&long).unwrap_err(),
        "truncated body: header says 7 bytes of code but file has 3"
    );
}

#[test]
fn parse_line_ignores_case_and_surrounding_whitespace() {
    for line in ["PUSH -12", "LOAD 7", "store 9", "Print", "swap"].iter() {
        let op = parse_line(line).unwrap();
        assert_eq!(parse_line(&format!(" \t{}\u{2003} ", line)), Ok(op));
        assert_eq!(parse_line(&line.to_ascii_lowercase()), Ok(op));
        assert_eq!(parse_line(&line.to_ascii_uppercase()), Ok(op));
    }
}
