use lib::assembler::assemble;
use lib::isa::{parse_header, Op};
use lib::vm::{Event, Trap, Vm};

/// Runs a program held as raw code; returns what it printed and the trap
/// report, if it trapped.
fn run_code(code: &[u8], trace: bool) -> (Vec<i64>, Vec<String>, Option<String>) {
    let mut vm = Vm::new(trace);
    let mut events: Vec<Event> = Vec::new();
    let res = vm.run(code, &mut events);
    let mut printed = Vec::new();
    let mut traces = Vec::new();
    for e in events {
        match e {
            Event::Print(v) => printed.push(v),
            Event::Trace(t) => traces.push(t),
        }
    }
    (printed, traces, res.err().map(|t| t.report()))
}

fn run_source(src: &str) -> (Vec<i64>, Option<String>) {
    let a = assemble(src).unwrap();
    let code = parse_header(&a.bytes).unwrap();
    let (printed, _, trap) = run_code(code, false);
    (printed, trap)
}

#[test]
fn arith_program() {
    let src = "PUSH 7\nPUSH 3\nADD\nPUSH 9\nPUSH 4\nSUB\nMUL\nPUSH 5\nDIV\nPRINT\nHALT\n";
    assert_eq!(run_source(src), (vec![10], None));
}

#[test]
fn horner_program() {
    let src = "PUSH 11\nSTORE 0\nLOAD 0\nPUSH 3\nMUL\nPUSH 2\nADD\nLOAD 0\nMUL\nPUSH 5\nADD\nLOAD 0\nMUL\nPUSH 7\nADD\nPRINT\nHALT\n";
    assert_eq!(run_source(src), (vec![4297], None));
}

#[test]
fn celsius_program() {
    let src = "PUSH 100\nPUSH 9\nMUL\nPUSH 5\nDIV\nPUSH 32\nADD\nPRINT\nHALT\n";
    assert_eq!(run_source(src), (vec![212], None));
}

#[test]
fn stackplay_program() {
    let src = "PUSH 12\nSTORE 0\nPUSH 35\nSTORE 1\nLOAD 0\nLOAD 0\nMUL\nLOAD 1\nLOAD 1\nMUL\nADD\nPRINT\nHALT\n";
    assert_eq!(run_source(src), (vec![1369], None));
}

#[test]
fn digits_program() {
    let mut src = String::from("PUSH 9274\nSTORE 0\n");
    for _ in 0..4 {
        src.push_str("LOAD 0\nPUSH 10\nMOD\nPRINT\nLOAD 0\nPUSH 10\nDIV\nSTORE 0\n");
    }
    src.push_str("HALT\n");
    assert_eq!(run_source(&src), (vec![4, 7, 2, 9], None));
}

#[test]
fn trap_underflow() {
    assert_eq!(
        run_source("POP\nHALT\n"),
        (vec![], Some("trap at ip=0x0000: stack underflow (POP on empty stack)".to_string()))
    );
    assert_eq!(
        run_source("PUSH 1\nSUB\nHALT\n").1.unwrap(),
        "trap at ip=0x0009: stack underflow (SUB on empty stack)"
    );
    assert_eq!(
        run_source("PUSH 1\nSWAP\n").1.unwrap(),
        "trap at ip=0x0009: stack underflow (SWAP on empty stack)"
    );
}

#[test]
fn trap_overflow() {
    let src = "PUSH 1\n".repeat(1025);
    assert_eq!(
        run_source(&src),
        (vec![], Some("trap at ip=0x2400: stack overflow (stack full at 1024)".to_string()))
    );
}

#[test]
fn trap_division_by_zero() {
    assert_eq!(
        run_source("PUSH 1\nPUSH 0\nDIV\nHALT\n").1.unwrap(),
        "trap at ip=0x0012: division by zero (DIV)"
    );
    assert_eq!(
        run_source("PUSH 1\nPUSH 0\nMOD\nHALT\n").1.unwrap(),
        "trap at ip=0x0012: division by zero (MOD)"
    );
}

#[test]
fn trap_division_overflow() {
    assert_eq!(
        run_source("PUSH -9223372036854775808\nPUSH -1\nDIV\nHALT\n").1.unwrap(),
        "trap at ip=0x0012: division overflow (DIV)"
    );
    assert_eq!(
        run_source("PUSH -9223372036854775808\nPUSH -1\nMOD\nHALT\n").1.unwrap(),
        "trap at ip=0x0012: division overflow (MOD)"
    );
}

#[test]
fn trap_unknown_and_truncated() {
    assert_eq!(run_code(&[0xEE], false).2.unwrap(), "trap at ip=0x0000: unknown opcode 0xEE");
    assert_eq!(run_code(&[0x01, 0x05, 0x00], false).2.unwrap(), "trap at ip=0x0000: truncated instruction");
    assert_eq!(run_code(&[0x02, 0x40], false).2.unwrap(), "trap at ip=0x0000: stack underflow (POP on empty stack)");
    assert_eq!(run_code(&[0x03], false).2.unwrap(), "trap at ip=0x0000: stack underflow (DUP on empty stack)");
}

#[test]
fn trap_ip_past_end() {
    assert_eq!(
        run_source("PUSH 1\nPRINT\n"),
        (vec![1], Some("trap at ip=0x000A: ip past end without HALT".to_string()))
    );
    assert_eq!(run_code(&[], false).2.unwrap(), "trap at ip=0x0000: ip past end without HALT");
}

#[test]
fn arithmetic_semantics() {
    let src = "PUSH 9223372036854775807\nPUSH 1\nADD\nPRINT\n\
               PUSH -9223372036854775808\nNEG\nPRINT\n\
               PUSH -7\nPUSH 2\nDIV\nPRINT\n\
               PUSH -7\nPUSH 2\nMOD\nPRINT\n\
               PUSH 7\nPUSH -2\nMOD\nPRINT\n\
               PUSH 4611686018427387904\nPUSH 4\nMUL\nPRINT\n\
               PUSH 3\nPUSH 10\nSUB\nPRINT\n\
               PUSH 5\nNEG\nPRINT\n\
               PUSH 1\nPUSH 2\nSWAP\nPRINT\nPRINT\n\
               PUSH 6\nDUP\nMUL\nPRINT\nHALT\n";
    assert_eq!(
        run_source(src),
        (vec![i64::MIN, i64::MIN, -3, -1, 1, 0, -7, -5, 1, 2, 36], None)
    );
}

#[test]
fn globals_start_at_zero() {
    assert_eq!(run_source("LOAD 200\nPRINT\nPUSH 3\nSTORE 200\nLOAD 200\nPRINT\nHALT").0, vec![0, 3]);
}

#[test]
fn trace_lines_come_before_each_instruction() {
    let a = assemble("PUSH 7\nPUSH -3\nADD\nPRINT\nHALT\n").unwrap();
    let code = parse_header(&a.bytes).unwrap();
    let (printed, traces, trap) = run_code(code, true);
    assert_eq!(printed, vec![4]);
    assert_eq!(trap, None);
    let expected = vec![
        format!("ip=0x{:04X}  {:<12} stack={}", 0, "PUSH 7", "[]"),
        format!("ip=0x{:04X}  {:<12} stack={}", 9, "PUSH -3", "[7]"),
        format!("ip=0x{:04X}  {:<12} stack={}", 18, "ADD", "[7, -3]"),
        format!("ip=0x{:04X}  {:<12} stack={}", 19, "PRINT", "[4]"),
        format!("ip=0x{:04X}  {:<12} stack={}", 20, "HALT", "[]"),
    ];
    assert_eq!(traces, expected);
    let vm = Vm::new(false);
    assert_eq!(vm.trace_line(0x1234, &Op::Push(-1234567890123)), "ip=0x1234  PUSH -1234567890123 stack=[]");
}

#[test]
fn trap_reports() {
    assert_eq!(Trap::StackUnderflow { ip: 0x12345, what: "POP" }.report(), "trap at ip=0x12345: stack underflow (POP on empty stack)");
    assert_eq!(Trap::DivByZero { ip: 5, what: "MOD" }.report(), "trap at ip=0x0005: division by zero (MOD)");
    assert_eq!(Trap::DivOverflow { ip: 255, what: "DIV" }.report(), "trap at ip=0x00FF: division overflow (DIV)");
    assert_eq!(Trap::UnknownOpcode { ip: 1, opc: 7 }.report(), "trap at ip=0x0001: unknown opcode 0x07");
    assert_eq!(Trap::TruncatedInstr { ip: 10 }.report(), "trap at ip=0x000A: truncated instruction");
    assert_eq!(Trap::StackOverflow { ip: 0 }.report(), "trap at ip=0x0000: stack overflow (stack full at 1024)");
}

#[test]
fn tracing_changes_only_the_trace_lines() {
    let a = assemble("PUSH 6\nDUP\nMUL\nPRINT\nPUSH 1\nPUSH 0\nDIV\n").unwrap();
    let code = parse_header(&a.bytes).unwrap();
    let (p_on, t_on, r_on) = run_code(code, true);
    let (p_off, t_off, r_off) = run_code(code, false);
    assert_eq!(p_on, p_off);
    assert_eq!(r_on, r_off);
    assert_eq!(t_on.len(), 7);
    assert!(t_off.is_empty());
}

#[test]
fn bytes_after_halt_are_never_read() {
    let a = assemble("PUSH 3\nPRINT\nHALT\n").unwrap();
    let code = parse_header(&a.bytes).unwrap().to_vec();
    let mut longer = code.clone();
    longer.extend_from_slice(&[0xEE, 0x01, 0x02]);
    assert_eq!(run_code(&code, false), (vec![3], vec![], None));
    assert_eq!(run_code(&longer, false), (vec![3], vec![], None));
}

#[test]
fn step_moves_forward_to_the_end() {
    let mut vm = Vm::new(false);
    let mut events: Vec<Event> = Vec::new();
    let code = [0x01u8, 1, 0, 0, 0, 0, 0, 0, 0, 0x40, 3, 0x02];
    let mut ip = 0;
    let mut seen = Vec::new();
    loop {
        match vm.step(&code, ip, &mut events) {
            Ok(lib::vm::Step::Next(n)) => {
                assert!(n > ip && n <= code.len());
                seen.push(ip);
                ip = n;
            }
            Ok(lib::vm::Step::Halt) => panic!("no HALT in this code"),
            Err(t) => {
                assert_eq!(t.report(), "trap at ip=0x000C: ip past end without HALT");
                break;
            }
        }
    }
    assert_eq!(seen, vec![0, 9, 11]);
}
