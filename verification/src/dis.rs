//! The disassembler: bytecode back to canonical assembly text.
use vstd::prelude::*;
use crate::assembler::{asm_lines, find_char, lemma_find_char, spec_assemble, spec_lines, spec_strip_comment, strip_cr};
use crate::isa::{
    decode, disasm, lemma_decode_encode, lemma_disasm_shape, lemma_encode_decode, lemma_parse_disasm,
    spec_decode, spec_disasm, spec_encode, spec_header, spec_parse_line, DecodeError, Op,
};
use crate::text::{hex_pad, push_char, trim, write_hex_padded};

verus! {

/// The message for bytecode at `ip` that does not decode.
pub open spec fn decode_error_message(e: DecodeError, ip: nat) -> Seq<char> {
    match e {
        DecodeError::Truncated => "truncated instruction at ip=0x"@ + hex_pad(ip, 4),
        DecodeError::UnknownOpcode(b) => "unknown opcode 0x"@ + hex_pad(b as nat, 2) + " at ip=0x"@
            + hex_pad(ip, 4),
        DecodeError::BadSlotOperand => "bad slot operand at ip=0x"@ + hex_pad(ip, 4),
    }
}

/// The text of the instructions of `code` from byte offset `ip` to the
/// end, one canonical line each, each line ended by `\n`; or the message for
/// the first position that does not decode.
pub open spec fn dis_from(code: Seq<u8>, ip: int) -> Result<Seq<char>, Seq<char>>
    decreases code.len() - ip,
{
    if ip < 0 || ip >= code.len() {
        Ok(Seq::empty())
    } else {
        match spec_decode(code, ip) {
            Ok((op, k)) => match dis_from(code, ip + k) {
                Ok(rest) => Ok(spec_disasm(op) + seq!['\n'] + rest),
                Err(e) => Err(e),
            },
            Err(e) => Err(decode_error_message(e, ip as nat)),
        }
    }
}

/// The canonical assembly text of a program.
pub open spec fn spec_disassemble(code: Seq<u8>) -> Result<Seq<char>, Seq<char>> {
    dis_from(code, 0)
}

/// Disassemble bytecode into canonical assembly text, one instruction per
/// line.
pub fn disassemble(code: &[u8]) -> (res: Result<String, String>)
    ensures
        match res {
            Ok(text) => spec_disassemble(code@) == Ok::<Seq<char>, Seq<char>>(text@),
            Err(m) => spec_disassemble(code@) == Err::<Seq<char>, Seq<char>>(m@),
        },
{
    let mut out = String::new();
    let mut ip: usize = 0;
    while ip < code.len()
        invariant
            ip <= code@.len(),
            dis_from(code@, 0) == match dis_from(code@, ip as int) {
                Ok(r) => Ok(out@ + r),
                Err(e) => Err::<Seq<char>, Seq<char>>(e),
            },
        decreases code@.len() - ip,
    {
        match decode(code, ip) {
            Ok((op, consumed)) => {
                let text = disasm(&op);
                let ghost before = out@;
                out.append(text.as_str());
                push_char(&mut out, '\n');
                proof {
                    match dis_from(code@, ip + consumed) {
                        Ok(r) => {
                            assert(before + (spec_disasm(op) + seq!['\n'] + r) =~= out@ + r);
                        },
                        Err(e) => {},
                    }
                }
                ip = ip + consumed;
            },
            Err(e) => {
                let mut m = String::new();
                match e {
                    DecodeError::Truncated => {
                        m.append("truncated instruction at ip=0x");
                        write_hex_padded(&mut m, ip as u64, 4);
                    },
                    DecodeError::UnknownOpcode(b) => {
                        m.append("unknown opcode 0x");
                        write_hex_padded(&mut m, b as u64, 2);
                        m.append(" at ip=0x");
                        write_hex_padded(&mut m, ip as u64, 4);
                    },
                    DecodeError::BadSlotOperand => {
                        m.append("bad slot operand at ip=0x");
                        write_hex_padded(&mut m, ip as u64, 4);
                    },
                }
                assert(m@ =~= decode_error_message(e, ip as nat));
                return Err(m);
            },
        }
    }
    assert(out@ + Seq::<char>::empty() =~= out@);
    Ok(out)
}

// ------------------------------------------------------------------- laws

/// The bytecode of a sequence of instructions.
pub open spec fn encode_all(ops: Seq<Op>) -> Seq<u8>
    decreases ops.len(),
{
    if ops.len() == 0 {
        Seq::empty()
    } else {
        spec_encode(ops[0]) + encode_all(ops.drop_first())
    }
}

/// The canonical listing of a sequence of instructions: one line each,
/// each ended by `\n`.
pub open spec fn listing(ops: Seq<Op>) -> Seq<char>
    decreases ops.len(),
{
    if ops.len() == 0 {
        Seq::empty()
    } else {
        spec_disasm(ops[0]) + seq!['\n'] + listing(ops.drop_first())
    }
}

/// The instructions decoded from byte offset `ip` on, up to the first
/// position that does not decode.
pub open spec fn decoded_ops(code: Seq<u8>, ip: int) -> Seq<Op>
    decreases code.len() - ip,
{
    if ip < 0 || ip >= code.len() {
        Seq::empty()
    } else {
        match spec_decode(code, ip) {
            Ok((op, k)) => seq![op] + decoded_ops(code, ip + k),
            Err(_) => Seq::empty(),
        }
    }
}

proof fn lemma_encode_all_push(ops: Seq<Op>, op: Op)
    ensures
        encode_all(ops.push(op)) == encode_all(ops) + spec_encode(op),
    decreases ops.len(),
{
    if ops.len() == 0 {
        assert(ops.push(op).drop_first() =~= Seq::<Op>::empty());
        assert(encode_all(ops.push(op).drop_first()) == Seq::<u8>::empty());
        assert(encode_all(ops) == Seq::<u8>::empty());
        assert(ops.push(op)[0] == op);
        assert(encode_all(ops.push(op)) =~= encode_all(ops) + spec_encode(op));
    } else {
        lemma_encode_all_push(ops.drop_first(), op);
        assert(ops.push(op).drop_first() =~= ops.drop_first().push(op));
        assert(encode_all(ops.push(op)) =~= encode_all(ops) + spec_encode(op));
    }
}

/// Code that disassembles is the bytecode of the instructions decoded from
/// it, and its text is their listing.
proof fn lemma_dis_from_ok(code: Seq<u8>, ip: int)
    requires
        0 <= ip <= code.len(),
        dis_from(code, ip) is Ok,
    ensures
        dis_from(code, ip) == Ok::<Seq<char>, Seq<char>>(listing(decoded_ops(code, ip))),
        encode_all(decoded_ops(code, ip)) == code.subrange(ip, code.len() as int),
    decreases code.len() - ip,
{
    if ip >= code.len() {
        assert(code.subrange(ip, code.len() as int) =~= Seq::<u8>::empty());
    } else {
        let (op, k) = spec_decode(code, ip)->Ok_0;
        lemma_encode_decode(code, ip);
        lemma_dis_from_ok(code, ip + k);
        let ops = decoded_ops(code, ip);
        assert(ops[0] == op);
        assert(ops.drop_first() =~= decoded_ops(code, ip + k));
        assert(code.subrange(ip, code.len() as int) =~= code.subrange(ip, ip + k) + code.subrange(
            ip + k,
            code.len() as int,
        ));
    }
}

/// The bytecode of instructions, after anything, disassembles to their
/// listing.
proof fn lemma_dis_encode_all(pre: Seq<u8>, ops: Seq<Op>)
    ensures
        dis_from(pre + encode_all(ops), pre.len() as int) == Ok::<Seq<char>, Seq<char>>(listing(ops)),
        decoded_ops(pre + encode_all(ops), pre.len() as int) == ops,
    decreases ops.len(),
{
    let code = pre + encode_all(ops);
    if ops.len() == 0 {
        assert(code.len() == pre.len());
        assert(decoded_ops(code, pre.len() as int) =~= ops);
    } else {
        let op = ops[0];
        let rest = ops.drop_first();
        assert(code =~= pre + spec_encode(op) + encode_all(rest));
        lemma_decode_encode(pre, op, encode_all(rest));
        let pre2 = pre + spec_encode(op);
        assert(code =~= pre2 + encode_all(rest));
        lemma_dis_encode_all(pre2, rest);
        assert(decoded_ops(code, pre.len() as int) =~= ops);
    }
}

/// The lines of a listing are the canonical texts of its instructions.
proof fn lemma_lines_of_listing(ops: Seq<Op>)
    ensures
        spec_lines(listing(ops)) == ops.map_values(|op: Op| spec_disasm(op)),
    decreases ops.len(),
{
    if ops.len() == 0 {
        assert(ops.map_values(|op: Op| spec_disasm(op)) =~= Seq::<Seq<char>>::empty());
    } else {
        let d = spec_disasm(ops[0]);
        let rest = ops.drop_first();
        let t = listing(ops);
        lemma_disasm_shape(ops[0]);
        lemma_lines_of_listing(rest);
        assert(t =~= d + seq!['\n'] + listing(rest));
        assert forall|i: int| 0 <= i < d.len() implies t[i] != '\n' by {
            assert(t[i] == d[i]);
        }
        lemma_find_char(t, '\n');
        assert(find_char(t, '\n') == d.len()) by {
            if find_char(t, '\n') < d.len() {
                assert(t[find_char(t, '\n')] == '\n');
            }
            assert(t[d.len() as int] == '\n');
        }
        assert(t.subrange(0, d.len() as int) =~= d);
        assert(t.subrange(d.len() as int + 1, t.len() as int) =~= listing(rest));
        assert(strip_cr(d) == d);
        assert(ops.map_values(|op: Op| spec_disasm(op)) =~= seq![d] + rest.map_values(
            |op: Op| spec_disasm(op),
        ));
    }
}

/// Assembling the canonical texts of instructions, line by line, gives
/// their bytecode.
proof fn lemma_asm_canonical(ops: Seq<Op>, k: int)
    requires
        0 <= k <= ops.len(),
    ensures
        asm_lines(ops.map_values(|op: Op| spec_disasm(op)), k) == Ok::<(Seq<u8>, Option<Op>), Seq<char>>(
            (encode_all(ops.take(k)), if k == 0 { None } else { Some(ops[k - 1]) }),
        ),
    decreases k,
{
    let ls = ops.map_values(|op: Op| spec_disasm(op));
    if k == 0 {
        assert(ops.take(0) =~= Seq::<Op>::empty());
    } else {
        lemma_asm_canonical(ops, k - 1);
        let op = ops[k - 1];
        let d = spec_disasm(op);
        assert(ls[k - 1] == d);
        lemma_disasm_shape(op);
        lemma_find_char(d, ';');
        assert(find_char(d, ';') == d.len()) by {
            if find_char(d, ';') < d.len() {
                assert(d[find_char(d, ';')] == ';');
            }
        }
        assert(spec_strip_comment(d) =~= d);
        assert(trim(d) == d);
        lemma_parse_disasm(op);
        assert(ops.take(k) =~= ops.take(k - 1).push(op));
        lemma_encode_all_push(ops.take(k - 1), op);
    }
}

/// Assembling the listing of instructions gives the file of their
/// bytecode.
proof fn lemma_assemble_listing(ops: Seq<Op>)
    requires
        ops.len() > 0,
        encode_all(ops).len() <= u32::MAX,
    ensures
        spec_assemble(listing(ops)) == Ok::<(Seq<u8>, bool), Seq<char>>(
            (spec_header(encode_all(ops).len() as u32) + encode_all(ops), ops.last() == Op::Halt),
        ),
{
    lemma_lines_of_listing(ops);
    lemma_asm_canonical(ops, ops.len() as int);
    assert(ops.take(ops.len() as int) =~= ops);
}

/// Disassembling bytecode and assembling the text again gives the same
/// bytecode, under a header for it: `dis` then `asm` is byte-identical for
/// every non-empty program that disassembles and fits the header.
pub proof fn law_disassemble_then_assemble(code: Seq<u8>)
    requires
        spec_disassemble(code) is Ok,
        0 < code.len() <= u32::MAX,
    ensures
        spec_assemble(spec_disassemble(code)->Ok_0) == Ok::<(Seq<u8>, bool), Seq<char>>(
            (spec_header(code.len() as u32) + code, decoded_ops(code, 0).last() == Op::Halt),
        ),
{
    lemma_dis_from_ok(code, 0);
    let ops = decoded_ops(code, 0);
    assert(code.subrange(0, code.len() as int) =~= code);
    assert(ops.len() > 0);
    lemma_assemble_listing(ops);
}

/// The instructions behind the code that the first `k` lines assemble to.
proof fn lemma_asm_lines_ops(ls: Seq<Seq<char>>, k: int) -> (ops: Seq<Op>)
    requires
        asm_lines(ls, k) is Ok,
    ensures
        asm_lines(ls, k) == Ok::<(Seq<u8>, Option<Op>), Seq<char>>(
            (encode_all(ops), if ops.len() == 0 { None } else { Some(ops.last()) }),
        ),
    decreases k,
{
    if k <= 0 {
        Seq::empty()
    } else {
        let prev = lemma_asm_lines_ops(ls, k - 1);
        let l = spec_strip_comment(ls[k - 1]);
        if trim(l).len() == 0 {
            prev
        } else {
            let op = spec_parse_line(l)->Ok_0;
            lemma_encode_all_push(prev, op);
            prev.push(op)
        }
    }
}

/// `asm` then `dis` then `asm` is byte-identical: the code of an assembled
/// file disassembles, and the text it gives assembles to the same file.
pub proof fn law_assemble_disassemble_assemble(source: Seq<char>)
    requires
        spec_assemble(source) is Ok,
    ensures
        ({
            let (bytes, halts) = spec_assemble(source)->Ok_0;
            let code = bytes.subrange(9, bytes.len() as int);
            &&& spec_disassemble(code) is Ok
            &&& spec_assemble(spec_disassemble(code)->Ok_0) == Ok::<(Seq<u8>, bool), Seq<char>>((bytes, halts))
        }),
{
    let ls = spec_lines(source);
    let ops = lemma_asm_lines_ops(ls, ls.len() as int);
    let (bytes, halts) = spec_assemble(source)->Ok_0;
    let code = encode_all(ops);
    assert(bytes =~= spec_header(code.len() as u32) + code);
    assert(bytes.subrange(9, bytes.len() as int) =~= code);
    lemma_dis_encode_all(Seq::empty(), ops);
    assert(Seq::<u8>::empty() + code =~= code);
    lemma_assemble_listing(ops);
}

} // verus!
