use lib::assembler::{assemble, strip_comment};
use lib::dis::disassemble;
use lib::isa::{parse_header, DecodeError};

const ARITH: &str = "; (7 + 3) * (9 - 4) / 5\nPUSH 7\nPUSH 3\nADD\nPUSH 9\nPUSH 4\nSUB\nMUL\nPUSH 5\nDIV\nPRINT\nHALT\n";

#[test]
fn assemble_exact_bytes() {
    let a = assemble("push 1 ; one\nhalt").unwrap();
    assert_eq!(
        a.bytes,
        vec![0x4D, 0x56, 0x4D, 0x00, 0x01, 10, 0, 0, 0, 0x01, 1, 0, 0, 0, 0, 0, 0, 0, 0xFF]
    );
    assert!(a.ends_in_halt);
}

#[test]
fn assemble_reports_missing_halt() {
    let a = assemble("PUSH 2\nPRINT\n").unwrap();
    assert!(!a.ends_in_halt);
    assert_eq!(a.bytes.len(), 9 + 10);
}

#[test]
fn assemble_line_numbered_errors() {
    assert_eq!(
        assemble("PUSH 1\n\n; comment\nFOO 3\nHALT\n").unwrap_err(),
        "error: line 4: unknown mnemonic 'FOO'"
    );
    assert_eq!(
        assemble("PUSH 1\r\nPUSH x\r\n").unwrap_err(),
        "error: line 2: invalid PUSH operand: invalid digit found in string"
    );
}

#[test]
fn assemble_empty_program() {
    assert_eq!(assemble("").unwrap_err(), "error: empty program (no instructions)");
    assert_eq!(
        assemble("; nothing here\n   \n\t;; still nothing\n").unwrap_err(),
        "error: empty program (no instructions)"
    );
}

#[test]
fn assemble_handles_crlf_and_comments() {
    let a = assemble("PUSH 5 ;five\r\nPRINT\r\nHALT\r\n").unwrap();
    let b = assemble("PUSH 5\nPRINT\nHALT").unwrap();
    assert_eq!(a.bytes, b.bytes);
}

#[test]
fn strip_comment_cuts_at_first_semicolon() {
    assert_eq!(strip_comment("PUSH 1 ; a ; b"), "PUSH 1 ");
    assert_eq!(strip_comment("HALT"), "HALT");
    assert_eq!(strip_comment(";"), "");
}

#[test]
fn disassemble_canonical_listing() {
    let a = assemble(ARITH).unwrap();
    let code = parse_header(&a.bytes).unwrap();
    let text = disassemble(code).unwrap();
    assert_eq!(
        text,
        "PUSH 7\nPUSH 3\nADD\nPUSH 9\nPUSH 4\nSUB\nMUL\nPUSH 5\nDIV\nPRINT\nHALT\n"
    );
}

#[test]
fn asm_dis_asm_is_byte_identical() {
    let sources = [
        ARITH,
        "  push -5 ; x\nLoad 3\nstore 255\nDUP\nswap\nneg\nmod\npop\nprint\n",
        "PUSH 9223372036854775807\nPUSH -9223372036854775808\nHALT",
    ];
    for src in sources.iter() {
        let a = assemble(src).unwrap();
        let code = parse_header(&a.bytes).unwrap();
        let text = disassemble(code).unwrap();
        let b = assemble(&text).unwrap();
        assert_eq!(a.bytes, b.bytes);
        assert_eq!(a.ends_in_halt, b.ends_in_halt);
    }
}

#[test]
fn disassemble_errors() {
    assert_eq!(disassemble(&[0x01, 1]).unwrap_err(), "truncated instruction at ip=0x0000");
    assert_eq!(disassemble(&[0x02, 0xEE]).unwrap_err(), "unknown opcode 0xEE at ip=0x0001");
    assert_eq!(disassemble(&[]).unwrap(), "");
}

#[test]
fn decode_error_messages() {
    assert_eq!(DecodeError::Truncated.message(), "truncated instruction");
    assert_eq!(DecodeError::UnknownOpcode(0x0A).message(), "unknown opcode 0x0A");
    assert_eq!(DecodeError::BadSlotOperand.message(), "bad slot operand");
}
