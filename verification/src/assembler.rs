//! The single-pass assembler: `.tasm` text to `.tbc` bytes, with
//! line-numbered errors.
use vstd::prelude::*;
use crate::isa::{encode, parse_chars, spec_encode, spec_header, spec_parse_line, Op, MAGIC, VERSION};
use crate::text::{chars_of, dec_nat, string_of_range, trim, trim_range, write_dec_u64};


verus! {

/// The index of the first `c` in `s`, or the length of `s`.
pub open spec fn find_char(s: Seq<char>, c: char) -> int
    decreases s.len(),
{
    if s.len() == 0 || s[0] == c {
        0
    } else {
        1 + find_char(s.drop_first(), c)
    }
}

pub proof fn lemma_find_char(s: Seq<char>, c: char)
    ensures
        0 <= find_char(s, c) <= s.len(),
        find_char(s, c) < s.len() ==> s[find_char(s, c)] == c,
        forall|i: int| 0 <= i < find_char(s, c) ==> s[i] != c,
    decreases s.len(),
{
    if s.len() > 0 && s[0] != c {
        lemma_find_char(s.drop_first(), c);
        assert forall|i: int| 0 <= i < find_char(s, c) implies s[i] != c by {
            if i > 0 {
                assert(s[i] == s.drop_first()[i - 1]);
            }
        }
    }
}

/// A line without its comment: everything before the first `;`.
pub open spec fn spec_strip_comment(line: Seq<char>) -> Seq<char> {
    line.subrange(0, find_char(line, ';'))
}

/// A line without the carriage return that ends it, if it has one.
pub open spec fn strip_cr(l: Seq<char>) -> Seq<char> {
    if l.len() > 0 && l.last() == '\r' {
        l.drop_last()
    } else {
        l
    }
}

/// The lines of a text (`str::lines`): split after each `\n`, the line
/// break (`\n` or `\r\n`) taken off; a final line break ends the last line
/// and starts no new one.
pub open spec fn spec_lines(s: Seq<char>) -> Seq<Seq<char>>
    decreases s.len(),
{
    if s.len() == 0 {
        Seq::empty()
    } else {
        let i = find_char(s, '\n');
        if i >= s.len() || i < 0 {
            seq![s]
        } else {
            seq![strip_cr(s.subrange(0, i))] + spec_lines(s.subrange(i + 1, s.len() as int))
        }
    }
}

/// The code assembled from the first `k` lines of `ls`, with the last
/// instruction seen; or the first error, tagged with its 1-based line number.
/// A line that is blank once its comment is taken off holds no instruction.
pub open spec fn asm_lines(ls: Seq<Seq<char>>, k: int) -> Result<(Seq<u8>, Option<Op>), Seq<char>>
    decreases k,
{
    if k <= 0 {
        Ok((Seq::empty(), None))
    } else {
        match asm_lines(ls, k - 1) {
            Err(e) => Err(e),
            Ok((code, last)) => {
                let l = spec_strip_comment(ls[k - 1]);
                if trim(l).len() == 0 {
                    Ok((code, last))
                } else {
                    match spec_parse_line(l) {
                        Err(m) => Err("error: line "@ + dec_nat(k as nat) + ": "@ + m),
                        Ok(op) => Ok((code + spec_encode(op), Some(op))),
                    }
                }
            },
        }
    }
}

/// A program in bytecode: the bytes of the `.tbc` file, and whether its
/// last instruction is `HALT`.
#[derive(Debug)]
pub struct Assembly {
    pub bytes: Vec<u8>,
    pub ends_in_halt: bool,
}

/// What assembling a source text gives: the file bytes and whether the last
/// instruction is `HALT`, or the error message.
pub open spec fn spec_assemble(source: Seq<char>) -> Result<(Seq<u8>, bool), Seq<char>> {
    let ls = spec_lines(source);
    match asm_lines(ls, ls.len() as int) {
        Err(e) => Err(e),
        Ok((code, last)) => if last is None {
            Err("error: empty program (no instructions)"@)
        } else if code.len() > u32::MAX {
            Err("code length exceeds u32"@)
        } else {
            Ok((spec_header(code.len() as u32) + code, last == Some(Op::Halt)))
        },
    }
}

/// The index of the first `c` in `v[lo..hi]` (as an index of `v`), or `hi`.
fn find_in_range(v: &Vec<char>, lo: usize, hi: usize, c: char) -> (r: usize)
    requires
        lo <= hi <= v@.len(),
    ensures
        r == lo + find_char(v@.subrange(lo as int, hi as int), c),
        lo <= r <= hi,
{
    let mut i: usize = lo;
    while i < hi && v[i] != c
        invariant
            lo <= i <= hi <= v@.len(),
            find_char(v@.subrange(lo as int, hi as int), c) == (i - lo) + find_char(
                v@.subrange(i as int, hi as int),
                c,
            ),
        decreases hi - i,
    {
        assert(v@.subrange(i as int, hi as int).drop_first() =~= v@.subrange(i + 1, hi as int));
        i += 1;
    }
    i
}

/// A line without its comment: everything before the first `;`.
pub fn strip_comment(line: &str) -> (res: String)
    ensures
        res@ == spec_strip_comment(line@),
{
    let v = chars_of(line);
    let e = find_in_range(&v, 0, v.len(), ';');
    assert(v@.subrange(0, v@.len() as int) =~= v@);
    string_of_range(&v, 0, e)
}

proof fn lemma_asm_lines_prefix(ls1: Seq<Seq<char>>, ls2: Seq<Seq<char>>, k: int)
    requires
        0 <= k <= ls1.len(),
        k <= ls2.len(),
        forall|i: int| 0 <= i < k ==> ls1[i] == ls2[i],
    ensures
        asm_lines(ls1, k) == asm_lines(ls2, k),
    decreases k,
{
    if k > 0 {
        lemma_asm_lines_prefix(ls1, ls2, k - 1);
    }
}

proof fn lemma_asm_lines_err(ls: Seq<Seq<char>>, j: int, k: int)
    requires
        0 <= j <= k,
        asm_lines(ls, j) is Err,
    ensures
        asm_lines(ls, k) == asm_lines(ls, j),
    decreases k - j,
{
    if k > j {
        lemma_asm_lines_err(ls, j, k - 1);
    }
}

/// The line that starts at `pos` in `v[..n]`: it ends at `le` and the next
/// line starts at `next`.
fn next_line(v: &Vec<char>, pos: usize, n: usize) -> (r: (usize, usize))
    requires
        pos < n == v@.len(),
    ensures
        pos <= r.0 <= r.1 <= n,
        pos < r.1,
        spec_lines(v@.subrange(pos as int, n as int)) == seq![v@.subrange(pos as int, r.0 as int)]
            + spec_lines(v@.subrange(r.1 as int, n as int)),
{
    let ghost rest = v@.subrange(pos as int, n as int);
    let e = find_in_range(v, pos, n, '\n');
    proof {
        lemma_find_char(rest, '\n');
    }
    let le: usize = if e < n && e > pos && v[e - 1] == '\r' {
        e - 1
    } else {
        e
    };
    let next: usize = if e < n {
        e + 1
    } else {
        n
    };
    proof {
        let line = v@.subrange(pos as int, le as int);
        if e < n {
            assert(rest.subrange(0, e - pos) =~= v@.subrange(pos as int, e as int));
            assert(strip_cr(rest.subrange(0, e - pos)) =~= line);
            assert(rest.subrange(e - pos + 1, rest.len() as int) =~= v@.subrange(e + 1, n as int));
        } else {
            assert(line =~= rest);
            assert(v@.subrange(next as int, n as int) =~= Seq::<char>::empty());
            assert(spec_lines(v@.subrange(next as int, n as int)) =~= Seq::<Seq<char>>::empty());
            assert(seq![rest] + Seq::<Seq<char>>::empty() =~= seq![rest]);
        }
    }
    (le, next)
}

/// The instruction on the line `v[lo..hi]`: none when the line is blank
/// once its comment is taken off.
fn line_instruction(v: &Vec<char>, lo: usize, hi: usize) -> (r: Option<Result<Op, String>>)
    requires
        lo <= hi <= v@.len(),
    ensures
        ({
            let l = spec_strip_comment(v@.subrange(lo as int, hi as int));
            match r {
                None => trim(l).len() == 0,
                Some(Ok(op)) => trim(l).len() != 0 && spec_parse_line(l) == Ok::<Op, Seq<char>>(op),
                Some(Err(m)) => trim(l).len() != 0 && spec_parse_line(l) == Err::<Op, Seq<char>>(m@),
            }
        }),
{
    let ce = find_in_range(v, lo, hi, ';');
    assert(spec_strip_comment(v@.subrange(lo as int, hi as int)) =~= v@.subrange(lo as int, ce as int));
    let (a, b) = trim_range(v, lo, ce);
    if a == b {
        None
    } else {
        Some(parse_chars(v, lo, ce))
    }
}

proof fn lemma_asm_lines_step(done: Seq<Seq<char>>, line: Seq<char>)
    ensures
        asm_lines(done.push(line), done.len() as int + 1) == match asm_lines(done, done.len() as int) {
            Err(e) => Err(e),
            Ok((code, last)) => {
                let l = spec_strip_comment(line);
                if trim(l).len() == 0 {
                    Ok((code, last))
                } else {
                    match spec_parse_line(l) {
                        Err(m) => Err("error: line "@ + dec_nat((done.len() + 1) as nat) + ": "@ + m),
                        Ok(op) => Ok((code + spec_encode(op), Some(op))),
                    }
                }
            },
        },
{
    lemma_asm_lines_prefix(done, done.push(line), done.len() as int);
    assert(done.push(line)[done.len() as int] == line);
}

/// Assemble a source text into the bytes of a `.tbc` file.
pub fn assemble(source: &str) -> (res: Result<Assembly, String>)
    ensures
        match res {
            Ok(a) => spec_assemble(source@) == Ok::<(Seq<u8>, bool), Seq<char>>((a.bytes@, a.ends_in_halt)),
            Err(m) => spec_assemble(source@) == Err::<(Seq<u8>, bool), Seq<char>>(m@),
        },
{
    let v = chars_of(source);
    let n = v.len();
    let ghost ls = spec_lines(v@);
    let ghost mut done: Seq<Seq<char>> = Seq::empty();
    let mut code: Vec<u8> = Vec::new();
    let mut last: Option<Op> = None;
    let mut pos: usize = 0;
    let mut lineno: usize = 0;
    assert(v@.subrange(0, n as int) =~= v@);
    assert(ls =~= done + spec_lines(v@.subrange(0, n as int)));
    while pos < n
        invariant
            n == v@.len(),
            v@ == source@,
            ls == spec_lines(v@),
            0 <= lineno <= pos <= n,
            done.len() == lineno,
            ls == done + spec_lines(v@.subrange(pos as int, n as int)),
            asm_lines(done, lineno as int) == Ok::<(Seq<u8>, Option<Op>), Seq<char>>((code@, last)),
        decreases n - pos,
    {
        let (le, next) = next_line(&v, pos, n);
        let ghost line = v@.subrange(pos as int, le as int);
        let ghost new_done = done.push(line);
        proof {
            lemma_asm_lines_step(done, line);
            assert(ls =~= new_done + spec_lines(v@.subrange(next as int, n as int)));
        }
        match line_instruction(&v, pos, le) {
            None => {},
            Some(Err(m)) => {
                let mut msg = String::from_str("error: line ");
                write_dec_u64(&mut msg, (lineno + 1) as u64);
                msg.append(": ");
                msg.append(m.as_str());
                proof {
                    assert(asm_lines(new_done, lineno + 1) == Err::<(Seq<u8>, Option<Op>), Seq<char>>(msg@));
                    lemma_asm_lines_prefix(new_done, ls, lineno + 1);
                    lemma_asm_lines_err(ls, lineno + 1, ls.len() as int);
                    assert(asm_lines(ls, ls.len() as int) == Err::<(Seq<u8>, Option<Op>), Seq<char>>(msg@));
                }
                return Err(msg);
            },
            Some(Ok(op)) => {
                let mut bytes = encode(&op);
                code.append(&mut bytes);
                last = Some(op);
            },
        }
        proof {
            done = new_done;
        }
        lineno = lineno + 1;
        pos = next;
    }
    assert(spec_lines(v@.subrange(pos as int, n as int)) =~= Seq::<Seq<char>>::empty());
    assert(ls =~= done);
    if last.is_none() {
        return Err(String::from_str("error: empty program (no instructions)"));
    }
    if code.len() as u64 > 0xffff_ffffu64 {
        return Err(String::from_str("code length exceeds u32"));
    }
    let len: u32 = code.len() as u32;
    let mut out: Vec<u8> = Vec::new();
    out.push(MAGIC[0]);
    out.push(MAGIC[1]);
    out.push(MAGIC[2]);
    out.push(MAGIC[3]);
    out.push(VERSION);
    out.push((len >> 0u32) as u8);
    out.push((len >> 8u32) as u8);
    out.push((len >> 16u32) as u8);
    out.push((len >> 24u32) as u8);
    assert(out@ =~= spec_header(len));
    out.append(&mut code);
    let ends_in_halt = match last {
        Some(Op::Halt) => true,
        _ => false,
    };
    Ok(Assembly { bytes: out, ends_in_halt })
}

// ------------------------------------------------------------------- laws

/// A comment runs from the first `;` to the end of the line: what is left
/// is a prefix of the line without any `;`, and the line goes on with `;`
/// where it stops.
pub proof fn law_strip_comment(line: Seq<char>)
    ensures
        ({
            let c = spec_strip_comment(line);
            &&& c.len() <= line.len()
            &&& line.subrange(0, c.len() as int) == c
            &&& forall|i: int| 0 <= i < c.len() ==> #[trigger] c[i] != ';'
            &&& c.len() < line.len() ==> line[c.len() as int] == ';'
        }),
{
    lemma_find_char(line, ';');
    let c = spec_strip_comment(line);
    assert forall|i: int| 0 <= i < c.len() implies #[trigger] c[i] != ';' by {
        assert(c[i] == line[i]);
    }
}

/// A line is accepted when it is blank once its comment is taken off, or
/// reads as an instruction.
pub open spec fn line_accepted(l: Seq<char>) -> bool {
    trim(spec_strip_comment(l)).len() == 0 || spec_parse_line(spec_strip_comment(l)) is Ok
}

proof fn lemma_asm_lines_ok(ls: Seq<Seq<char>>, j: int)
    requires
        0 <= j <= ls.len(),
        forall|i: int| 0 <= i < j ==> line_accepted(#[trigger] ls[i]),
    ensures
        asm_lines(ls, j) is Ok,
    decreases j,
{
    if j > 0 {
        lemma_asm_lines_ok(ls, j - 1);
        assert(line_accepted(ls[j - 1]));
    }
}

/// The assembler stops at the first line that is not accepted and reports
/// it by its 1-based number with the reason; when every line is accepted
/// the only errors left are an empty program and code too long for the
/// header.
pub proof fn law_assemble_first_error(source: Seq<char>, k: int)
    ensures
        ({
            let ls = spec_lines(source);
            &&& (0 <= k < ls.len() && (forall|i: int| 0 <= i < k ==> line_accepted(#[trigger] ls[i]))
                && !line_accepted(ls[k])) ==> spec_assemble(source) == Err::<(Seq<u8>, bool), Seq<char>>(
                "error: line "@ + dec_nat((k + 1) as nat) + ": "@ + spec_parse_line(spec_strip_comment(ls[k]))->Err_0)
            &&& (forall|i: int| 0 <= i < ls.len() ==> line_accepted(#[trigger] ls[i])) ==> (spec_assemble(source) is Ok
                || spec_assemble(source) == Err::<(Seq<u8>, bool), Seq<char>>("error: empty program (no instructions)"@)
                || spec_assemble(source) == Err::<(Seq<u8>, bool), Seq<char>>("code length exceeds u32"@))
        }),
{
    let ls = spec_lines(source);
    if 0 <= k < ls.len() && (forall|i: int| 0 <= i < k ==> line_accepted(#[trigger] ls[i])) && !line_accepted(ls[k]) {
        lemma_asm_lines_ok(ls, k);
        assert(asm_lines(ls, k + 1) is Err);
        lemma_asm_lines_err(ls, k + 1, ls.len() as int);
    }
    if forall|i: int| 0 <= i < ls.len() ==> line_accepted(#[trigger] ls[i]) {
        lemma_asm_lines_ok(ls, ls.len() as int);
    }
}

} // verus!
