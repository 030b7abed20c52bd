//! The stack machine that executes bytecode, with its five classes of
//! traps.
use vstd::prelude::*;
use crate::isa::{decode, disasm, mnemonic, spec_decode, spec_disasm, spec_mnemonic, DecodeError, Op, MAX_STACK, NUM_SLOTS, OP_HALT, nullary_op, law_decode_table, spec_encode, lemma_encode_decode};
use crate::text::{chars_of, dec_int, dec_nat, hex_pad, push_char, space_pad, write_dec_i64, write_dec_u64, write_hex_padded};

verus! {

// ------------------------------------------------------------------ traps

/// Why execution stopped abnormally.
#[derive(Debug)]
pub enum Trap {
    StackUnderflow { ip: usize, what: &'static str },
    StackOverflow { ip: usize },
    DivByZero { ip: usize, what: &'static str },
    DivOverflow { ip: usize, what: &'static str },
    UnknownOpcode { ip: usize, opc: u8 },
    TruncatedInstr { ip: usize },
    IpPastEnd { ip: usize },
}

/// A trap with the name of the instruction that raised it as characters.
pub enum SpecTrap {
    StackUnderflow { ip: usize, what: Seq<char> },
    StackOverflow { ip: usize },
    DivByZero { ip: usize, what: Seq<char> },
    DivOverflow { ip: usize, what: Seq<char> },
    UnknownOpcode { ip: usize, opc: u8 },
    TruncatedInstr { ip: usize },
    IpPastEnd { ip: usize },
}

impl View for Trap {
    type V = SpecTrap;

    open spec fn view(&self) -> SpecTrap {
        match *self {
            Trap::StackUnderflow { ip, what } => SpecTrap::StackUnderflow { ip, what: what@ },
            Trap::StackOverflow { ip } => SpecTrap::StackOverflow { ip },
            Trap::DivByZero { ip, what } => SpecTrap::DivByZero { ip, what: what@ },
            Trap::DivOverflow { ip, what } => SpecTrap::DivOverflow { ip, what: what@ },
            Trap::UnknownOpcode { ip, opc } => SpecTrap::UnknownOpcode { ip, opc },
            Trap::TruncatedInstr { ip } => SpecTrap::TruncatedInstr { ip },
            Trap::IpPastEnd { ip } => SpecTrap::IpPastEnd { ip },
        }
    }
}

/// The report of a trap: `trap at ip=0x<4 hex digits>: <reason>`.
pub open spec fn spec_report(t: SpecTrap) -> Seq<char> {
    match t {
        SpecTrap::StackUnderflow { ip, what } => "trap at ip=0x"@ + hex_pad(ip as nat, 4)
            + ": stack underflow ("@ + what + " on empty stack)"@,
        SpecTrap::StackOverflow { ip } => "trap at ip=0x"@ + hex_pad(ip as nat, 4)
            + ": stack overflow (stack full at "@ + dec_nat(MAX_STACK as nat) + ")"@,
        SpecTrap::DivByZero { ip, what } => "trap at ip=0x"@ + hex_pad(ip as nat, 4)
            + ": division by zero ("@ + what + ")"@,
        SpecTrap::DivOverflow { ip, what } => "trap at ip=0x"@ + hex_pad(ip as nat, 4)
            + ": division overflow ("@ + what + ")"@,
        SpecTrap::UnknownOpcode { ip, opc } => "trap at ip=0x"@ + hex_pad(ip as nat, 4)
            + ": unknown opcode 0x"@ + hex_pad(opc as nat, 2),
        SpecTrap::TruncatedInstr { ip } => "trap at ip=0x"@ + hex_pad(ip as nat, 4)
            + ": truncated instruction"@,
        SpecTrap::IpPastEnd { ip } => "trap at ip=0x"@ + hex_pad(ip as nat, 4)
            + ": ip past end without HALT"@,
    }
}

impl Trap {
    /// The one-line report of the trap.
    pub fn report(&self) -> (text: String)
        ensures
            text@ == spec_report(self@),
    {
        let mut s = String::from_str("trap at ip=0x");
        match self {
            Trap::StackUnderflow { ip, what } => {
                write_hex_padded(&mut s, *ip as u64, 4);
                s.append(": stack underflow (");
                s.append(what);
                s.append(" on empty stack)");
            },
            Trap::StackOverflow { ip } => {
                write_hex_padded(&mut s, *ip as u64, 4);
                s.append(": stack overflow (stack full at ");
                write_dec_u64(&mut s, MAX_STACK as u64);
                s.append(")");
            },
            Trap::DivByZero { ip, what } => {
                write_hex_padded(&mut s, *ip as u64, 4);
                s.append(": division by zero (");
                s.append(what);
                s.append(")");
            },
            Trap::DivOverflow { ip, what } => {
                write_hex_padded(&mut s, *ip as u64, 4);
                s.append(": division overflow (");
                s.append(what);
                s.append(")");
            },
            Trap::UnknownOpcode { ip, opc } => {
                write_hex_padded(&mut s, *ip as u64, 4);
                s.append(": unknown opcode 0x");
                write_hex_padded(&mut s, *opc as u64, 2);
            },
            Trap::TruncatedInstr { ip } => {
                write_hex_padded(&mut s, *ip as u64, 4);
                s.append(": truncated instruction");
            },
            Trap::IpPastEnd { ip } => {
                write_hex_padded(&mut s, *ip as u64, 4);
                s.append(": ip past end without HALT");
            },
        }
        assert(s@ =~= spec_report(self@));
        s
    }
}

// ------------------------------------------------------------ arithmetic

/// The magnitude of `x`.
pub open spec fn abs(x: int) -> nat {
    if x < 0 { (-x) as nat } else { x as nat }
}

/// Division rounding toward zero (Rust's `/` on integers).
pub open spec fn trunc_div(a: int, b: int) -> int {
    let q = (abs(a) / abs(b)) as int;
    if (a < 0) != (b < 0) { -q } else { q }
}

/// The remainder of division rounding toward zero: it has the sign of `a`
/// (Rust's `%` on integers).
pub open spec fn trunc_rem(a: int, b: int) -> int {
    let r = (abs(a) % abs(b)) as int;
    if a < 0 { -r } else { r }
}

/// `-a`, except that the most negative value is its own negation.
pub open spec fn wrapping_neg(a: i64) -> i64 {
    if a == i64::MIN { a } else { (-a) as i64 }
}

/// The result of a binary arithmetic instruction on `a` (below) and `b`
/// (top): `+ - *` wrap around, `/` and `%` round toward zero.
pub open spec fn arith(op: Op, a: i64, b: i64) -> i64 {
    match op {
        Op::Add => vstd::wrapping::i64_specs::wrapping_add(a, b),
        Op::Sub => vstd::wrapping::i64_specs::wrapping_sub(a, b),
        Op::Mul => vstd::wrapping::i64_specs::wrapping_mul(a, b),
        Op::Div => trunc_div(a as int, b as int) as i64,
        Op::Mod => trunc_rem(a as int, b as int) as i64,
        _ => 0,
    }
}

/// `a / b` rounding toward zero, for a divisor that is not zero and no
/// `i64::MIN / -1`.
fn div_toward_zero(a: i64, b: i64, rem: bool) -> (r: i64)
    requires
        b != 0,
        !(a == i64::MIN && b == -1),
    ensures
        rem ==> r == trunc_rem(a as int, b as int),
        !rem ==> r == trunc_div(a as int, b as int),
{
    let ua: u64 = if a < 0 { (0i128 - a as i128) as u64 } else { a as u64 };
    let ub: u64 = if b < 0 { (0i128 - b as i128) as u64 } else { b as u64 };
    assert(ua == abs(a as int) && ub == abs(b as int));
    if rem {
        let r: u64 = ua % ub;
        assert(r < ub);
        if a < 0 { (0i128 - r as i128) as i64 } else { r as i64 }
    } else {
        let q: u64 = ua / ub;
        assert(q <= ua) by (nonlinear_arith)
            requires ub >= 1, q == ua / ub;
        assert(ub == 1 ==> q == ua) by (nonlinear_arith)
            requires q == ua / ub;
        assert(ub >= 2 ==> q <= ua / 2) by (nonlinear_arith)
            requires q == ua / ub;
        if (a < 0) != (b < 0) {
            (0i128 - q as i128) as i64
        } else {
            q as i64
        }
    }
}

// ---------------------------------------------------------------- machine

/// The state of a machine: the operand stack (top last), the global slots,
/// and whether each executed instruction is traced.
pub struct VmState {
    pub stack: Seq<i64>,
    pub globals: Seq<i64>,
    pub trace: bool,
}

impl VmState {
    /// At most `MAX_STACK` values on the stack and `NUM_SLOTS` global slots.
    pub open spec fn valid(self) -> bool {
        self.stack.len() <= MAX_STACK && self.globals.len() == NUM_SLOTS
    }

    pub open spec fn with_stack(self, stack: Seq<i64>) -> VmState {
        VmState { stack, globals: self.globals, trace: self.trace }
    }

    pub open spec fn with_trace(self, trace: bool) -> VmState {
        VmState { stack: self.stack, globals: self.globals, trace }
    }
}

/// The stack machine.
pub struct Vm {
    stack: Vec<i64>,
    globals: Vec<i64>,
    trace: bool,
}

impl View for Vm {
    type V = VmState;

    closed spec fn view(&self) -> VmState {
        VmState { stack: self.stack@, globals: self.globals@, trace: self.trace }
    }
}

/// What a successful step leads to.
#[derive(Debug, Clone, Copy, PartialEq, Eq, Structural)]
pub enum Step {
    /// Go on at this instruction pointer.
    Next(usize),
    /// The program executed `HALT`.
    Halt,
}

/// What the machine hands out while it runs.
#[derive(Debug)]
pub enum Event {
    /// A trace line (written before the traced instruction executes).
    Trace(String),
    /// A value that `PRINT` printed.
    Print(i64),
}

/// An event with its text as characters.
pub enum SpecEvent {
    Trace(Seq<char>),
    Print(i64),
}

impl View for Event {
    type V = SpecEvent;

    open spec fn view(&self) -> SpecEvent {
        match self {
            Event::Trace(s) => SpecEvent::Trace(s@),
            Event::Print(v) => SpecEvent::Print(*v),
        }
    }
}

pub open spec fn events_view(v: Seq<Event>) -> Seq<SpecEvent> {
    v.map_values(|e: Event| e@)
}

pub open spec fn trap_result_view<T>(r: Result<T, Trap>) -> Result<T, SpecTrap> {
    match r {
        Ok(v) => Ok(v),
        Err(t) => Err(t@),
    }
}

pub open spec fn underflow(ip: usize, op: Op) -> SpecTrap {
    SpecTrap::StackUnderflow { ip, what: spec_mnemonic(op) }
}

/// The effect of executing `op` (at `ip`) on a state: the new state and
/// the value printed, or the trap. A trap leaves the values popped before
/// it popped.
pub open spec fn spec_exec(s: VmState, op: Op, ip: usize) -> (VmState, Result<Option<i64>, SpecTrap>) {
    let n = s.stack.len();
    match op {
        Op::Push(v) => if n >= MAX_STACK {
            (s, Err(SpecTrap::StackOverflow { ip }))
        } else {
            (s.with_stack(s.stack.push(v)), Ok(None))
        },
        Op::Pop => if n == 0 {
            (s, Err(underflow(ip, op)))
        } else {
            (s.with_stack(s.stack.drop_last()), Ok(None))
        },
        Op::Dup => if n == 0 {
            (s, Err(underflow(ip, op)))
        } else if n >= MAX_STACK {
            (s, Err(SpecTrap::StackOverflow { ip }))
        } else {
            (s.with_stack(s.stack.push(s.stack.last())), Ok(None))
        },
        Op::Swap => if n < 2 {
            (s, Err(underflow(ip, op)))
        } else {
            (s.with_stack(s.stack.update(n - 1, s.stack[n - 2]).update(n - 2, s.stack[n - 1])), Ok(None))
        },
        Op::Add | Op::Sub | Op::Mul | Op::Div | Op::Mod => if n == 0 {
            (s, Err(underflow(ip, op)))
        } else if n == 1 {
            (s.with_stack(s.stack.drop_last()), Err(underflow(ip, op)))
        } else {
            let b = s.stack[n - 1];
            let a = s.stack[n - 2];
            let rest = s.stack.subrange(0, n - 2);
            let divides = op is Div || op is Mod;
            if divides && b == 0 {
                (s.with_stack(rest), Err(SpecTrap::DivByZero { ip, what: spec_mnemonic(op) }))
            } else if divides && a == i64::MIN && b == -1 {
                (s.with_stack(rest), Err(SpecTrap::DivOverflow { ip, what: spec_mnemonic(op) }))
            } else {
                (s.with_stack(rest.push(arith(op, a, b))), Ok(None))
            }
        },
        Op::Neg => if n == 0 {
            (s, Err(underflow(ip, op)))
        } else {
            (s.with_stack(s.stack.drop_last().push(wrapping_neg(s.stack.last()))), Ok(None))
        },
        Op::Load(slot) => if n >= MAX_STACK {
            (s, Err(SpecTrap::StackOverflow { ip }))
        } else {
            (s.with_stack(s.stack.push(s.globals[slot as int])), Ok(None))
        },
        Op::Store(slot) => if n == 0 {
            (s, Err(underflow(ip, op)))
        } else {
            (VmState { stack: s.stack.drop_last(), globals: s.globals.update(slot as int, s.stack.last()), trace: s.trace }, Ok(None))
        },
        Op::Print => if n == 0 {
            (s, Err(underflow(ip, op)))
        } else {
            (s.with_stack(s.stack.drop_last()), Ok(Some(s.stack.last())))
        },
        Op::Halt => (s, Ok(None)),
    }
}

/// The values of a stack in decimal, bottom first, separated by `, `.
pub open spec fn dec_items(v: Seq<i64>) -> Seq<char>
    decreases v.len(),
{
    if v.len() == 0 {
        Seq::empty()
    } else if v.len() == 1 {
        dec_int(v[0] as int)
    } else {
        dec_items(v.drop_last()) + ", "@ + dec_int(v.last() as int)
    }
}

/// The trace line of an instruction about to execute:
/// `ip=0x<4 hex digits>  <text padded to 12> stack=[a, b, c]`.
pub open spec fn spec_trace_line(stack: Seq<i64>, ip: usize, op: Op) -> Seq<char> {
    "ip=0x"@ + hex_pad(ip as nat, 4) + "  "@ + space_pad(spec_disasm(op), 12) + " stack="@ + "["@
        + dec_items(stack) + "]"@
}

/// One step of the machine at `ip`: the new state, the events (the trace
/// line if tracing is on, then the printed value if any) and where to go
/// on, or the trap.
pub open spec fn spec_step(s: VmState, code: Seq<u8>, ip: usize) -> (VmState, Seq<SpecEvent>, Result<Step, SpecTrap>) {
    if ip >= code.len() {
        (s, Seq::empty(), Err(SpecTrap::IpPastEnd { ip }))
    } else {
        match spec_decode(code, ip as int) {
            Err(DecodeError::UnknownOpcode(b)) => (s, Seq::empty(), Err(SpecTrap::UnknownOpcode { ip, opc: b })),
            Err(_) => (s, Seq::empty(), Err(SpecTrap::TruncatedInstr { ip })),
            Ok((op, k)) => {
                let tr: Seq<SpecEvent> = if s.trace {
                    seq![SpecEvent::Trace(spec_trace_line(s.stack, ip, op))]
                } else {
                    Seq::empty()
                };
                let (s2, r) = spec_exec(s, op, ip);
                match r {
                    Err(t) => (s2, tr, Err(t)),
                    Ok(printed) => {
                        let ev = match printed {
                            Some(v) => tr.push(SpecEvent::Print(v)),
                            None => tr,
                        };
                        if op is Halt {
                            (s2, ev, Ok(Step::Halt))
                        } else {
                            (s2, ev, Ok(Step::Next((ip + k) as usize)))
                        }
                    },
                }
            },
        }
    }
}

/// A step only moves forward, and never past the end of the code.
pub proof fn lemma_step_forward(s: VmState, code: Seq<u8>, ip: usize)
    requires
        code.len() <= usize::MAX,
    ensures
        spec_step(s, code, ip).2 matches Ok(Step::Next(n)) ==> ip < n <= code.len(),
{
    if ip < code.len() {
        if let Ok((op, k)) = spec_decode(code, ip as int) {
            assert(1 <= k && ip + k <= code.len());
        }
    }
}

/// Running the machine from `ip` until it halts or traps: the final state,
/// all events in order, and `Ok` when it halted.
pub open spec fn spec_run(s: VmState, code: Seq<u8>, ip: usize) -> (VmState, Seq<SpecEvent>, Result<(), SpecTrap>)
    decreases code.len() - ip when code.len() <= usize::MAX
{
    let (s2, ev, r) = spec_step(s, code, ip);
    match r {
        Err(t) => (s2, ev, Err(t)),
        Ok(Step::Halt) => (s2, ev, Ok(())),
        Ok(Step::Next(n)) => {
            proof {
                lemma_step_forward(s, code, ip);
            }
            let (s3, ev2, r2) = spec_run(s2, code, n);
            (s3, ev + ev2, r2)
        },
    }
}

/// Appends the values of `v` in decimal, separated by `, `.
fn write_dec_items(s: &mut String, v: &Vec<i64>)
    ensures
        final(s)@ == old(s)@ + dec_items(v@),
{
    let mut i: usize = 0;
    while i < v.len()
        invariant
            0 <= i <= v@.len(),
            s@ == old(s)@ + dec_items(v@.subrange(0, i as int)),
        decreases v@.len() - i,
    {
        assert(v@.subrange(0, i + 1).drop_last() =~= v@.subrange(0, i as int));
        if i > 0 {
            s.append(", ");
        }
        write_dec_i64(s, v[i]);
        i += 1;
        assert(s@ =~= old(s)@ + dec_items(v@.subrange(0, i as int)));
    }
    assert(v@.subrange(0, v@.len() as int) =~= v@);
}

impl Vm {
    /// A machine with an empty stack and all global slots zero.
    pub fn new(trace: bool) -> (vm: Vm)
        ensures
            vm@ == (VmState { stack: Seq::empty(), globals: Seq::new(NUM_SLOTS as nat, |i: int| 0i64), trace }),
            vm@.valid(),
    {
        let mut globals: Vec<i64> = Vec::new();
        let mut i: usize = 0;
        while i < NUM_SLOTS
            invariant
                i <= NUM_SLOTS,
                globals@ == Seq::new(i as nat, |j: int| 0i64),
            decreases NUM_SLOTS - i,
        {
            globals.push(0);
            i += 1;
            assert(globals@ =~= Seq::new(i as nat, |j: int| 0i64));
        }
        let vm = Vm { stack: Vec::new(), globals, trace };
        assert(vm@.stack =~= Seq::<i64>::empty());
        vm
    }

    /// Pushes `v`; a full stack traps.
    fn push(&mut self, v: i64, ip: usize) -> (res: Result<(), Trap>)
        ensures
            old(self)@.stack.len() >= MAX_STACK ==> (final(self)@ == old(self)@ && trap_result_view(res)
                == Err::<(), SpecTrap>(SpecTrap::StackOverflow { ip })),
            old(self)@.stack.len() < MAX_STACK ==> (final(self)@ == old(self)@.with_stack(
                old(self)@.stack.push(v),
            ) && res is Ok),
    {
        if self.stack.len() >= MAX_STACK {
            return Err(Trap::StackOverflow { ip });
        }
        self.stack.push(v);
        Ok(())
    }

    /// Pops the top value; an empty stack traps, naming `what`.
    fn pop(&mut self, what: &'static str, ip: usize) -> (res: Result<i64, Trap>)
        ensures
            old(self)@.stack.len() == 0 ==> (final(self)@ == old(self)@ && trap_result_view(res)
                == Err::<i64, SpecTrap>(SpecTrap::StackUnderflow { ip, what: what@ })),
            old(self)@.stack.len() > 0 ==> (final(self)@ == old(self)@.with_stack(
                old(self)@.stack.drop_last(),
            ) && trap_result_view(res) == Ok::<i64, SpecTrap>(old(self)@.stack.last())),
    {
        match self.stack.pop() {
            Some(v) => Ok(v),
            None => Err(Trap::StackUnderflow { ip, what }),
        }
    }

    /// Executes `op`, decoded at `ip` (see `spec_exec`); returns the value
    /// printed, if any.
    fn exec_op(&mut self, op: Op, ip: usize) -> (res: Result<Option<i64>, Trap>)
        requires
            old(self)@.valid(),
        ensures
            (final(self)@, trap_result_view(res)) == spec_exec(old(self)@, op, ip),
            final(self)@.valid(),
    {
        let what = mnemonic(&op);
        match op {
            Op::Push(n) => match self.push(n, ip) {
                Ok(_) => Ok(None),
                Err(t) => Err(t),
            },
            Op::Pop => match self.pop(what, ip) {
                Ok(_) => Ok(None),
                Err(t) => Err(t),
            },
            Op::Dup => {
                let len = self.stack.len();
                if len == 0 {
                    return Err(Trap::StackUnderflow { ip, what });
                }
                let top = self.stack[len - 1];
                match self.push(top, ip) {
                    Ok(_) => Ok(None),
                    Err(t) => Err(t),
                }
            },
            Op::Swap => {
                let len = self.stack.len();
                if len < 2 {
                    return Err(Trap::StackUnderflow { ip, what });
                }
                let x = self.stack[len - 1];
                let y = self.stack[len - 2];
                self.stack.set(len - 1, y);
                self.stack.set(len - 2, x);
                Ok(None)
            },
            Op::Add | Op::Sub | Op::Mul | Op::Div | Op::Mod => {
                let b = match self.pop(what, ip) {
                    Ok(v) => v,
                    Err(t) => return Err(t),
                };
                let a = match self.pop(what, ip) {
                    Ok(v) => v,
                    Err(t) => return Err(t),
                };
                let ghost rest = self@.stack;
                assert(rest =~= old(self)@.stack.subrange(0, old(self)@.stack.len() - 2));
                let r: i64 = match op {
                    Op::Add => a.wrapping_add(b),
                    Op::Sub => a.wrapping_sub(b),
                    Op::Mul => a.wrapping_mul(b),
                    _ => {
                        if b == 0 {
                            return Err(Trap::DivByZero { ip, what });
                        }
                        if a == i64::MIN && b == -1 {
                            return Err(Trap::DivOverflow { ip, what });
                        }
                        let is_mod = match op {
                            Op::Mod => true,
                            _ => false,
                        };
                        div_toward_zero(a, b, is_mod)
                    },
                };
                match self.push(r, ip) {
                    Ok(_) => Ok(None),
                    Err(t) => Err(t),
                }
            },
            Op::Neg => {
                let a = match self.pop(what, ip) {
                    Ok(v) => v,
                    Err(t) => return Err(t),
                };
                let r: i64 = if a == i64::MIN {
                    a
                } else {
                    -a
                };
                match self.push(r, ip) {
                    Ok(_) => Ok(None),
                    Err(t) => Err(t),
                }
            },
            Op::Load(slot) => {
                let v = self.globals[slot as usize];
                match self.push(v, ip) {
                    Ok(_) => Ok(None),
                    Err(t) => Err(t),
                }
            },
            Op::Store(slot) => {
                let v = match self.pop(what, ip) {
                    Ok(v) => v,
                    Err(t) => return Err(t),
                };
                self.globals.set(slot as usize, v);
                Ok(None)
            },
            Op::Print => match self.pop(what, ip) {
                Ok(v) => Ok(Some(v)),
                Err(t) => Err(t),
            },
            Op::Halt => Ok(None),
        }
    }

    /// The trace line for `op` about to execute at `ip` on this machine.
    pub fn trace_line(&self, ip: usize, op: &Op) -> (line: String)
        ensures
            line@ == spec_trace_line(self@.stack, ip, *op),
    {
        let mut s = String::from_str("ip=0x");
        write_hex_padded(&mut s, ip as u64, 4);
        s.append("  ");
        let text = disasm(op);
        let width = chars_of(text.as_str()).len();
        s.append(text.as_str());
        let ghost before_pad = s@;
        let mut k: usize = width;
        while k < 12
            invariant
                width == spec_disasm(*op).len(),
                width <= k,
                k == width || k <= 12,
                s@ == before_pad + Seq::new((k - width) as nat, |i: int| ' '),
            decreases 12 - k,
        {
            push_char(&mut s, ' ');
            assert(Seq::new((k + 1 - width) as nat, |i: int| ' ') =~= Seq::new((k - width) as nat, |i: int| ' ').push(' '));
            k += 1;
        }
        proof {
            let d = spec_disasm(*op);
            if width < 12 {
                assert(space_pad(d, 12) =~= d + Seq::new((k - width) as nat, |i: int| ' '));
            } else {
                assert(Seq::new((k - width) as nat, |i: int| ' ') =~= Seq::<char>::empty());
                assert(space_pad(d, 12) =~= d + Seq::new((k - width) as nat, |i: int| ' '));
            }
        }
        s.append(" stack=");
        s.append("[");
        write_dec_items(&mut s, &self.stack);
        s.append("]");
        assert(s@ =~= spec_trace_line(self@.stack, ip, *op));
        s
    }

    /// Executes the instruction at `ip` (see `spec_step`), appending its
    /// events to `events`.
    pub fn step(&mut self, code: &[u8], ip: usize, events: &mut Vec<Event>) -> (res: Result<Step, Trap>)
        requires
            old(self)@.valid(),
        ensures
            ({
                let (s2, ev, r) = spec_step(old(self)@, code@, ip);
                &&& final(self)@ == s2
                &&& events_view(final(events)@) == events_view(old(events)@) + ev
                &&& trap_result_view(res) == r
            }),
            final(self)@.valid(),
    {
        if ip >= code.len() {
            assert(events_view(events@) =~= events_view(old(events)@) + Seq::<SpecEvent>::empty());
            return Err(Trap::IpPastEnd { ip });
        }
        let (op, consumed) = match decode(code, ip) {
            Ok(v) => v,
            Err(e) => {
                assert(events_view(events@) =~= events_view(old(events)@) + Seq::<SpecEvent>::empty());
                return match e {
                    DecodeError::UnknownOpcode(b) => Err(Trap::UnknownOpcode { ip, opc: b }),
                    _ => Err(Trap::TruncatedInstr { ip }),
                };
            },
        };
        let ghost ev0 = events_view(events@);
        if self.trace {
            let line = self.trace_line(ip, &op);
            events.push(Event::Trace(line));
        }
        let ghost tr: Seq<SpecEvent> = if old(self)@.trace {
            seq![SpecEvent::Trace(spec_trace_line(old(self)@.stack, ip, op))]
        } else {
            Seq::empty()
        };
        assert(events_view(events@) =~= ev0 + tr);
        match self.exec_op(op, ip) {
            Err(t) => Err(t),
            Ok(printed) => {
                match printed {
                    Some(v) => {
                        events.push(Event::Print(v));
                        assert(events_view(events@) =~= ev0 + tr.push(SpecEvent::Print(v)));
                    },
                    None => {},
                }
                match op {
                    Op::Halt => Ok(Step::Halt),
                    _ => Ok(Step::Next(ip + consumed)),
                }
            },
        }
    }

    /// Runs `code` from its first byte until `HALT` or a trap (see
    /// `spec_run`), appending the trace lines and printed values to `events`
    /// in the order they happen.
    pub fn run(&mut self, code: &[u8], events: &mut Vec<Event>) -> (res: Result<(), Trap>)
        requires
            old(self)@.valid(),
        ensures
            ({
                let (s, ev, r) = spec_run(old(self)@, code@, 0);
                &&& final(self)@ == s
                &&& events_view(final(events)@) == events_view(old(events)@) + ev
                &&& trap_result_view(res) == r
            }),
            final(self)@.valid(),
    {
        let ghost s0 = self@;
        let ghost ev0 = events_view(events@);
        let mut ip: usize = 0;
        let clen = code.len();
        assert(code@.len() <= usize::MAX);
        loop
            invariant
                code@.len() == clen,
                s0 == old(self)@,
                ev0 == events_view(old(events)@),
                self@.valid(),
                ip <= code@.len(),
                ({
                    let (s, ev, r) = spec_run(s0, code@, 0);
                    let (s1, ev1, r1) = spec_run(self@, code@, ip);
                    &&& s == s1
                    &&& r == r1
                    &&& ev0 + ev == events_view(events@) + ev1
                }),
            decreases code@.len() - ip,
        {
            let ghost before = self@;
            let ghost evb = events_view(events@);
            match self.step(code, ip, events) {
                Err(t) => {
                    proof {
                        let (s2, ev, r) = spec_step(before, code@, ip);
                        assert(spec_run(before, code@, ip) == (s2, ev, Err::<(), SpecTrap>(t@)));
                    }
                    return Err(t);
                },
                Ok(Step::Halt) => {
                    proof {
                        let (s2, ev, r) = spec_step(before, code@, ip);
                        assert(spec_run(before, code@, ip) == (s2, ev, Ok::<(), SpecTrap>(())));
                    }
                    return Ok(());
                },
                Ok(Step::Next(n)) => {
                    proof {
                        lemma_step_forward(before, code@, ip);
                        let (s2, ev, r) = spec_step(before, code@, ip);
                        let (s3, ev2, r2) = spec_run(s2, code@, n);
                        assert(spec_run(before, code@, ip) == (s3, ev + ev2, r2));
                        assert(evb + (ev + ev2) =~= (evb + ev) + ev2);
                    }
                    ip = n;
                },
            }
        }
    }
}

// ------------------------------------------------------------- run laws

/// The offset of the instruction that raised a trap.
pub open spec fn trap_ip(t: SpecTrap) -> usize {
    match t {
        SpecTrap::StackUnderflow { ip, .. } => ip,
        SpecTrap::StackOverflow { ip } => ip,
        SpecTrap::DivByZero { ip, .. } => ip,
        SpecTrap::DivOverflow { ip, .. } => ip,
        SpecTrap::UnknownOpcode { ip, .. } => ip,
        SpecTrap::TruncatedInstr { ip } => ip,
        SpecTrap::IpPastEnd { ip } => ip,
    }
}

/// The offsets at which a run from `ip` starts an instruction, in order.
pub open spec fn run_offsets(s: VmState, code: Seq<u8>, ip: usize) -> Seq<usize>
    decreases code.len() - ip when code.len() <= usize::MAX
{
    if ip >= code.len() {
        Seq::empty()
    } else {
        let (s2, ev, r) = spec_step(s, code, ip);
        match r {
            Ok(Step::Next(n)) => {
                proof {
                    lemma_step_forward(s, code, ip);
                }
                seq![ip] + run_offsets(s2, code, n)
            },
            _ => seq![ip],
        }
    }
}

/// A run only moves forward: it starts instructions at strictly increasing
/// offsets, from `ip` and below the end of the code, so it executes at most
/// as many instructions as there are bytes left; a trap is raised at the
/// last of them, except ip-past-end, which is raised at exactly the end of
/// the code; and a run succeeds only by executing a `HALT` byte.
pub proof fn law_run_moves_forward(s: VmState, code: Seq<u8>, ip: usize)
    requires
        code.len() <= usize::MAX,
        ip <= code.len(),
    ensures
        ({
            let offs = run_offsets(s, code, ip);
            let r = spec_run(s, code, ip).2;
            &&& offs.len() <= code.len() - ip
            &&& forall|i: int| 0 <= i < offs.len() ==> ip <= #[trigger] offs[i] < code.len()
            &&& forall|i: int, j: int| 0 <= i < j < offs.len() ==> #[trigger] offs[i] < #[trigger] offs[j]
            &&& (offs.len() > 0 ==> offs[0] == ip)
            &&& (r matches Err(SpecTrap::IpPastEnd { ip: p }) ==> p == code.len())
            &&& (r matches Err(t) ==> (t is IpPastEnd || (offs.len() > 0 && trap_ip(t) == offs.last())))
            &&& (r is Ok ==> offs.len() > 0 && code[offs.last() as int] == OP_HALT)
        }),
    decreases code.len() - ip,
{
    if ip < code.len() {
        let (s2, ev, r) = spec_step(s, code, ip);
        match r {
            Ok(Step::Next(n)) => {
                lemma_step_forward(s, code, ip);
                law_run_moves_forward(s2, code, n);
                let rest = run_offsets(s2, code, n);
                let offs = run_offsets(s, code, ip);
                assert(offs =~= seq![ip] + rest);
                assert forall|i: int| 0 <= i < offs.len() implies ip <= #[trigger] offs[i] < code.len() by {
                    if i > 0 {
                        assert(offs[i] == rest[i - 1]);
                    }
                }
                assert forall|i: int, j: int| 0 <= i < j < offs.len() implies #[trigger] offs[i] < #[trigger] offs[j] by {
                    assert(offs[j] == rest[j - 1]);
                    if i > 0 {
                        assert(offs[i] == rest[i - 1]);
                    }
                }
                if rest.len() > 0 {
                    assert(offs.last() == rest.last());
                }
            },
            Ok(Step::Halt) => {
                let (op, k) = spec_decode(code, ip as int)->Ok_0;
                assert(op is Halt);
                assert(code[ip as int] == OP_HALT) by {
                    let b = code[ip as int];
                    if b != OP_HALT {
                        assert(nullary_op(b) != Some(Op::Halt));
                    }
                }
            },
            Err(t) => {},
        }
    }
}

/// Decoding only reads the bytes of the instruction it decodes.
proof fn lemma_decode_extend(code: Seq<u8>, extra: Seq<u8>, ip: int)
    requires
        spec_decode(code, ip) is Ok,
    ensures
        spec_decode(code + extra, ip) == spec_decode(code, ip),
{
    let all = code + extra;
    assert(all[ip] == code[ip]);
    if code[ip] == crate::isa::OP_PUSH {
        assert(all.subrange(ip + 1, ip + 9) =~= code.subrange(ip + 1, ip + 9));
    } else if code[ip] == crate::isa::OP_LOAD || code[ip] == crate::isa::OP_STORE {
        assert(all[ip + 1] == code[ip + 1]);
    }
}

/// Bytes after an executed `HALT` are never read: a run that halts runs
/// the same, with the same state, events and result, when anything is
/// appended to the code.
pub proof fn law_run_ignores_bytes_after_halt(s: VmState, code: Seq<u8>, extra: Seq<u8>, ip: usize)
    requires
        code.len() + extra.len() <= usize::MAX,
        spec_run(s, code, ip).2 is Ok,
    ensures
        spec_run(s, code + extra, ip) == spec_run(s, code, ip),
    decreases code.len() - ip,
{
    let all = code + extra;
    if ip < code.len() {
        let r = spec_step(s, code, ip).2;
        if r is Ok {
            lemma_decode_extend(code, extra, ip as int);
            assert(spec_step(s, all, ip) == spec_step(s, code, ip));
            let (s2, ev, r2) = spec_step(s, code, ip);
            if let Ok(Step::Next(n)) = r2 {
                lemma_step_forward(s, code, ip);
                law_run_ignores_bytes_after_halt(s2, code, extra, n);
            }
        }
    }
}

/// The values printed among some events, in order.
pub open spec fn printed(ev: Seq<SpecEvent>) -> Seq<i64>
    decreases ev.len(),
{
    if ev.len() == 0 {
        Seq::empty()
    } else {
        let rest = printed(ev.drop_last());
        match ev.last() {
            SpecEvent::Print(v) => rest.push(v),
            SpecEvent::Trace(_) => rest,
        }
    }
}

proof fn lemma_printed_concat(a: Seq<SpecEvent>, b: Seq<SpecEvent>)
    ensures
        printed(a + b) == printed(a) + printed(b),
    decreases b.len(),
{
    if b.len() == 0 {
        assert(a + b =~= a);
        assert(printed(a) + printed(b) =~= printed(a));
    } else {
        assert((a + b).drop_last() =~= a + b.drop_last());
        assert((a + b).last() == b.last());
        lemma_printed_concat(a, b.drop_last());
        assert(printed(a) + printed(b) =~= printed(a + b));
    }
}

proof fn lemma_exec_trace(s: VmState, op: Op, ip: usize, b: bool)
    ensures
        spec_exec(s.with_trace(b), op, ip) == (spec_exec(s, op, ip).0.with_trace(b), spec_exec(s, op, ip).1),
{
}

/// Tracing changes nothing but the trace lines: a run with tracing on and
/// one with tracing off end with the same stack, slots and result and print
/// the same values, the run with tracing off hands out no trace line, and
/// the flag itself is kept.
pub proof fn law_trace_changes_nothing_else(s: VmState, code: Seq<u8>, ip: usize)
    requires
        code.len() <= usize::MAX,
    ensures
        ({
            let on = spec_run(s.with_trace(true), code, ip);
            let off = spec_run(s.with_trace(false), code, ip);
            &&& on.0.stack == off.0.stack
            &&& on.0.globals == off.0.globals
            &&& on.0.trace
            &&& !off.0.trace
            &&& on.2 == off.2
            &&& printed(on.1) == printed(off.1)
            &&& forall|i: int| 0 <= i < off.1.len() ==> #[trigger] off.1[i] is Print
        }),
    decreases code.len() - ip,
{
    let son = s.with_trace(true);
    let soff = s.with_trace(false);
    if ip < code.len() {
        match spec_decode(code, ip as int) {
            Ok((op, k)) => {
                lemma_exec_trace(s, op, ip, true);
                lemma_exec_trace(s, op, ip, false);
                let (x, r) = spec_exec(s, op, ip);
                let (s_on, ev_on, r_on) = spec_step(son, code, ip);
                let (s_off, ev_off, r_off) = spec_step(soff, code, ip);
                assert(s_on == x.with_trace(true) && s_off == x.with_trace(false));
                assert(r_on == r_off);
                let tr = seq![SpecEvent::Trace(spec_trace_line(s.stack, ip, op))];
                let pr: Seq<SpecEvent> = match r {
                    Ok(Some(v)) => seq![SpecEvent::Print(v)],
                    _ => Seq::empty(),
                };
                assert(ev_on =~= tr + pr);
                assert(ev_off =~= pr);
                lemma_printed_concat(tr, pr);
                assert(printed(tr) =~= Seq::<i64>::empty()) by {
                    assert(tr.drop_last() =~= Seq::<SpecEvent>::empty());
                    assert(printed(tr.drop_last()) == Seq::<i64>::empty());
                    assert(tr.last() is Trace);
                }
                assert(printed(tr) + printed(pr) =~= printed(pr));
                if let Ok(Step::Next(n)) = r_on {
                    lemma_step_forward(son, code, ip);
                    law_trace_changes_nothing_else(x, code, n);
                    let on2 = spec_run(s_on, code, n);
                    let off2 = spec_run(s_off, code, n);
                    lemma_printed_concat(ev_on, on2.1);
                    lemma_printed_concat(ev_off, off2.1);
                    assert forall|i: int| 0 <= i < (ev_off + off2.1).len() implies #[trigger] (ev_off
                        + off2.1)[i] is Print by {
                        if i >= ev_off.len() {
                            assert((ev_off + off2.1)[i] == off2.1[i - ev_off.len()]);
                        }
                    }
                }
            },
            Err(_) => {},
        }
    }
}

// ------------------------------------------------------ instruction laws

/// `2^64`, the modulus of the machine's wrapping arithmetic.
pub open spec fn word() -> int {
    0x1_0000_0000_0000_0000
}

/// `PUSH v` on a stack with room puts `v` on top and keeps everything else;
/// `POP` right after it gives the state back.
pub proof fn law_push_then_pop(s: VmState, v: i64, ip: usize)
    requires
        s.stack.len() < MAX_STACK,
    ensures
        ({
            let (s1, r1) = spec_exec(s, Op::Push(v), ip);
            &&& r1 == Ok::<Option<i64>, SpecTrap>(None)
            &&& s1.stack.len() == s.stack.len() + 1
            &&& s1.stack[s.stack.len() as int] == v
            &&& forall|i: int| 0 <= i < s.stack.len() ==> #[trigger] s1.stack[i] == s.stack[i]
            &&& s1.globals == s.globals
            &&& spec_exec(s1, Op::Pop, ip) == (s, Ok::<Option<i64>, SpecTrap>(None))
        }),
{
    let (s1, r1) = spec_exec(s, Op::Push(v), ip);
    assert(s1.stack.drop_last() =~= s.stack);
}

/// `POP` discards the top value and keeps every value below it in place;
/// on an empty stack it traps and changes nothing.
pub proof fn law_pop(s: VmState, ip: usize)
    ensures
        ({
            let n = s.stack.len();
            let (s1, r) = spec_exec(s, Op::Pop, ip);
            &&& n > 0 ==> (r == Ok::<Option<i64>, SpecTrap>(None) && s1.stack.len() == n - 1
                && s1.globals == s.globals && forall|i: int| 0 <= i < n - 1 ==> #[trigger] s1.stack[i] == s.stack[i])
            &&& n == 0 ==> (s1 == s && r == Err::<Option<i64>, SpecTrap>(SpecTrap::StackUnderflow { ip, what: "POP"@ }))
        }),
{
}

/// `DUP` pushes a copy of the top value; on a full stack it traps with
/// nothing changed.
pub proof fn law_dup(s: VmState, ip: usize)
    ensures
        ({
            let n = s.stack.len();
            let (s1, r) = spec_exec(s, Op::Dup, ip);
            &&& (0 < n < MAX_STACK) ==> (r == Ok::<Option<i64>, SpecTrap>(None) && s1.stack.len() == n + 1
                && s1.stack[n as int] == s.stack[n - 1] && s1.globals == s.globals
                && forall|i: int| 0 <= i < n ==> #[trigger] s1.stack[i] == s.stack[i])
            &&& n >= MAX_STACK ==> (s1 == s && r == Err::<Option<i64>, SpecTrap>(SpecTrap::StackOverflow { ip }))
            &&& n == 0 ==> (s1 == s && r == Err::<Option<i64>, SpecTrap>(SpecTrap::StackUnderflow { ip, what: "DUP"@ }))
        }),
{
}

/// `SWAP` exchanges the top two values and keeps every value below them in
/// place; doing it twice gives the state back.
pub proof fn law_swap(s: VmState, ip: usize)
    requires
        s.stack.len() >= 2,
    ensures
        ({
            let n = s.stack.len();
            let (s1, r) = spec_exec(s, Op::Swap, ip);
            &&& r == Ok::<Option<i64>, SpecTrap>(None)
            &&& s1.stack.len() == n
            &&& s1.stack[n - 1] == s.stack[n - 2]
            &&& s1.stack[n - 2] == s.stack[n - 1]
            &&& forall|i: int| 0 <= i < n - 2 ==> #[trigger] s1.stack[i] == s.stack[i]
            &&& s1.globals == s.globals
            &&& spec_exec(s1, Op::Swap, ip) == (s, Ok::<Option<i64>, SpecTrap>(None))
        }),
{
    let (s1, r) = spec_exec(s, Op::Swap, ip);
    let n = s.stack.len();
    assert(s1.stack.update(n - 1, s1.stack[n - 2]).update(n - 2, s1.stack[n - 1]) =~= s.stack);
}

/// The stack after a binary instruction that does not trap: the two top
/// values `a` (below) and `b` (top) are replaced by one result, and every
/// value below them is kept in place.
pub open spec fn binary_result(s: VmState, op: Op, ip: usize, res: i64) -> bool {
    let n = s.stack.len();
    let (s1, r) = spec_exec(s, op, ip);
    &&& r == Ok::<Option<i64>, SpecTrap>(None)
    &&& s1.stack.len() == n - 1
    &&& s1.stack[n - 2] == res
    &&& forall|i: int| 0 <= i < n - 2 ==> #[trigger] s1.stack[i] == s.stack[i]
    &&& s1.globals == s.globals
}

/// `ADD`, `SUB` and `MUL` replace `a` (below) and `b` (top) by `a + b`,
/// `a - b` and `a * b` taken modulo 2^64, never trapping; and `NEG`
/// replaces the top `a` by `-a` modulo 2^64.
pub proof fn law_wrapping_arithmetic(s: VmState, ip: usize)
    requires
        s.stack.len() >= 2,
    ensures
        ({
            let n = s.stack.len();
            let a = s.stack[n - 2];
            let b = s.stack[n - 1];
            &&& exists|r: i64| binary_result(s, Op::Add, ip, r) && (r as int) % word() == (a as int + b as int) % word()
            &&& exists|r: i64| binary_result(s, Op::Sub, ip, r) && (r as int) % word() == (a as int - b as int) % word()
            &&& exists|r: i64| binary_result(s, Op::Mul, ip, r) && (r as int) % word() == (a as int * b as int) % word()
            &&& ({
                let (s1, r) = spec_exec(s, Op::Neg, ip);
                &&& r == Ok::<Option<i64>, SpecTrap>(None)
                &&& s1.stack.len() == n
                &&& (s1.stack[n - 1] as int) % word() == (-(b as int)) % word()
                &&& forall|i: int| 0 <= i < n - 1 ==> #[trigger] s1.stack[i] == s.stack[i]
            })
        }),
{
    let n = s.stack.len();
    let a = s.stack[n - 2];
    let b = s.stack[n - 1];
    let radd = vstd::wrapping::i64_specs::wrapping_add(a, b);
    let rsub = vstd::wrapping::i64_specs::wrapping_sub(a, b);
    let rmul = vstd::wrapping::i64_specs::wrapping_mul(a, b);
    assert(binary_result(s, Op::Add, ip, radd));
    assert(binary_result(s, Op::Sub, ip, rsub));
    assert(binary_result(s, Op::Mul, ip, rmul));
    let x = a * b;
    assert((rmul as int) % word() == x % word()) by {
        vstd::arithmetic::div_mod::lemma_mod_bound(x, word());
        vstd::arithmetic::div_mod::lemma_mod_twice(x, word());
        if x % word() > i64::MAX {
            vstd::arithmetic::div_mod::lemma_mod_sub_multiples_vanish(x % word(), word());
        }
    }
    assert((radd as int) % word() == (a as int + b as int) % word());
    assert((rsub as int) % word() == (a as int - b as int) % word());
    let (s1, r) = spec_exec(s, Op::Neg, ip);
    assert(s1.stack[n - 1] == wrapping_neg(b));
}

/// `DIV` and `MOD` of `a` (below) by `b` (top) give the quotient `q` and
/// remainder `m` of division rounding toward zero: `q * b + m == a`, `m` is
/// smaller than `b` in magnitude and is zero or has the sign of `a`. A zero
/// divisor and `i64::MIN / -1` trap, with both operands taken off.
pub proof fn law_division(s: VmState, ip: usize)
    requires
        s.stack.len() >= 2,
    ensures
        ({
            let n = s.stack.len();
            let a = s.stack[n - 2];
            let b = s.stack[n - 1];
            let rest = s.stack.subrange(0, n - 2);
            &&& (b != 0 && !(a == i64::MIN && b == -1)) ==> exists|q: i64, m: i64|
                binary_result(s, Op::Div, ip, q) && binary_result(s, Op::Mod, ip, m)
                && q * b + m == a && abs(m as int) < abs(b as int) && (m == 0 || (m < 0) == (a < 0))
            &&& b == 0 ==> spec_exec(s, Op::Div, ip) == (s.with_stack(rest), Err::<Option<i64>, SpecTrap>(SpecTrap::DivByZero { ip, what: "DIV"@ }))
            &&& b == 0 ==> spec_exec(s, Op::Mod, ip) == (s.with_stack(rest), Err::<Option<i64>, SpecTrap>(SpecTrap::DivByZero { ip, what: "MOD"@ }))
            &&& (a == i64::MIN && b == -1) ==> spec_exec(s, Op::Div, ip) == (s.with_stack(rest), Err::<Option<i64>, SpecTrap>(SpecTrap::DivOverflow { ip, what: "DIV"@ }))
            &&& (a == i64::MIN && b == -1) ==> spec_exec(s, Op::Mod, ip) == (s.with_stack(rest), Err::<Option<i64>, SpecTrap>(SpecTrap::DivOverflow { ip, what: "MOD"@ }))
        }),
{
    let n = s.stack.len();
    let a = s.stack[n - 2];
    let b = s.stack[n - 1];
    if b != 0 && !(a == i64::MIN && b == -1) {
        let q = trunc_div(a as int, b as int);
        let m = trunc_rem(a as int, b as int);
        lemma_trunc_div_rem(a as int, b as int);
        assert(binary_result(s, Op::Div, ip, q as i64));
        assert(binary_result(s, Op::Mod, ip, m as i64));
    }
}

/// The quotient rounding toward zero and its remainder recompose the
/// dividend, and stay in the `i64` range for `i64` operands other than
/// `i64::MIN / -1`.
proof fn lemma_trunc_div_rem(a: int, b: int)
    requires
        b != 0,
        i64::MIN <= a <= i64::MAX,
        i64::MIN <= b <= i64::MAX,
        !(a == i64::MIN && b == -1),
    ensures
        trunc_div(a, b) * b + trunc_rem(a, b) == a,
        abs(trunc_rem(a, b)) < abs(b),
        trunc_rem(a, b) == 0 || (trunc_rem(a, b) < 0) == (a < 0),
        i64::MIN <= trunc_div(a, b) <= i64::MAX,
        i64::MIN <= trunc_rem(a, b) <= i64::MAX,
{
    let x = abs(a) as int;
    let y = abs(b) as int;
    let q = x / y;
    let r = x % y;
    vstd::arithmetic::div_mod::lemma_fundamental_div_mod(x, y);
    vstd::arithmetic::div_mod::lemma_mod_bound(x, y);
    vstd::arithmetic::div_mod::lemma_div_pos_is_pos(x, y);
    assert(q <= x) by {
        vstd::arithmetic::div_mod::lemma_div_is_ordered_by_denominator(x, 1, y);
        vstd::arithmetic::div_mod::lemma_div_basics(x);
    }
    assert(y >= 2 ==> q <= x / 2) by {
        if y >= 2 {
            vstd::arithmetic::div_mod::lemma_div_is_ordered_by_denominator(x, 2, y);
        }
    }
    if a < 0 && b < 0 {
        assert(q * b == -(q * y)) by (nonlinear_arith) requires y == -b;
    } else if a < 0 {
        assert((-q) * b == -(q * y)) by (nonlinear_arith) requires y == b;
    } else if b < 0 {
        assert((-q) * b == q * y) by (nonlinear_arith) requires y == -b;
    } else {
    }
}

/// `STORE k` moves the top value into slot `k` and leaves the other slots
/// and the values below in place; `LOAD k` right after it pushes that value
/// back, giving the stack back.
pub proof fn law_store_then_load(s: VmState, k: u8, ip: usize)
    requires
        s.valid(),
        s.stack.len() > 0,
    ensures
        ({
            let n = s.stack.len();
            let (s1, r1) = spec_exec(s, Op::Store(k), ip);
            let (s2, r2) = spec_exec(s1, Op::Load(k), ip);
            &&& r1 == Ok::<Option<i64>, SpecTrap>(None)
            &&& s1.stack.len() == n - 1
            &&& forall|i: int| 0 <= i < n - 1 ==> #[trigger] s1.stack[i] == s.stack[i]
            &&& s1.globals.len() == s.globals.len()
            &&& s1.globals[k as int] == s.stack[n - 1]
            &&& forall|j: int| 0 <= j < s.globals.len() && j != k ==> #[trigger] s1.globals[j] == s.globals[j]
            &&& r2 == Ok::<Option<i64>, SpecTrap>(None)
            &&& s2.stack == s.stack
            &&& s2.globals == s1.globals
        }),
{
    let (s1, r1) = spec_exec(s, Op::Store(k), ip);
    let (s2, r2) = spec_exec(s1, Op::Load(k), ip);
    assert(s2.stack =~= s.stack);
}

/// `LOAD k` pushes the value of slot `k` and changes no slot; on a full
/// stack it traps with nothing changed.
pub proof fn law_load(s: VmState, k: u8, ip: usize)
    requires
        s.valid(),
    ensures
        ({
            let n = s.stack.len();
            let (s1, r) = spec_exec(s, Op::Load(k), ip);
            &&& n < MAX_STACK ==> (r == Ok::<Option<i64>, SpecTrap>(None) && s1.stack.len() == n + 1
                && s1.stack[n as int] == s.globals[k as int] && s1.globals == s.globals
                && forall|i: int| 0 <= i < n ==> #[trigger] s1.stack[i] == s.stack[i])
            &&& n >= MAX_STACK ==> (s1 == s && r == Err::<Option<i64>, SpecTrap>(SpecTrap::StackOverflow { ip }))
        }),
{
}

/// `PRINT` prints the top value and discards it, keeping the values below.
pub proof fn law_print(s: VmState, ip: usize)
    requires
        s.stack.len() > 0,
    ensures
        ({
            let n = s.stack.len();
            let (s1, r) = spec_exec(s, Op::Print, ip);
            &&& r == Ok::<Option<i64>, SpecTrap>(Some(s.stack[n - 1]))
            &&& s1.stack.len() == n - 1
            &&& forall|i: int| 0 <= i < n - 1 ==> #[trigger] s1.stack[i] == s.stack[i]
            &&& s1.globals == s.globals
        }),
{
}

/// A full stack refuses `PUSH` with a stack overflow at the instruction,
/// and every instruction that needs more operands than the stack holds
/// traps with a stack underflow naming it.
pub proof fn law_stack_limits(s: VmState, op: Op, ip: usize)
    ensures
        (s.stack.len() >= MAX_STACK && op is Push) ==> spec_exec(s, op, ip) == (s, Err::<Option<i64>, SpecTrap>(SpecTrap::StackOverflow { ip })),
        (s.stack.len() == 0 && (op is Pop || op is Dup || op is Neg || op is Store || op is Print || op is Swap
            || op is Add || op is Sub || op is Mul || op is Div || op is Mod)) ==> spec_exec(s, op, ip).1
            == Err::<Option<i64>, SpecTrap>(SpecTrap::StackUnderflow { ip, what: spec_mnemonic(op) }),
        (s.stack.len() == 1 && (op is Swap || op is Add || op is Sub || op is Mul || op is Div || op is Mod))
            ==> spec_exec(s, op, ip).1 == Err::<Option<i64>, SpecTrap>(SpecTrap::StackUnderflow { ip, what: spec_mnemonic(op) }),
        op is Halt ==> spec_exec(s, op, ip) == (s, Ok::<Option<i64>, SpecTrap>(None)),
{
}

/// The stack part of a trace line lists the whole stack, bottom first:
/// with no values it is `[]`, and pushing a value onto the stack appends
/// `, ` (when there were values) and the value in decimal inside the
/// brackets, the rest of the line unchanged.
pub proof fn law_trace_line_lists_stack(stack: Seq<i64>, x: i64, ip: usize, op: Op)
    ensures
        spec_trace_line(Seq::empty(), ip, op) == "ip=0x"@ + hex_pad(ip as nat, 4) + "  "@ + space_pad(spec_disasm(op), 12)
            + " stack="@ + "[]"@,
        spec_trace_line(stack.push(x), ip, op) == spec_trace_line(stack, ip, op).drop_last() + (if stack.len() > 0 {
            ", "@
        } else {
            Seq::empty()
        }) + dec_int(x as int) + "]"@,
{
    reveal_strlit("[]");
    reveal_strlit("[");
    reveal_strlit("]");
    let head = "ip=0x"@ + hex_pad(ip as nat, 4) + "  "@ + space_pad(spec_disasm(op), 12) + " stack="@;
    assert(dec_items(Seq::<i64>::empty()) == Seq::<char>::empty());
    assert(spec_trace_line(Seq::empty(), ip, op) =~= head + "[]"@);
    let t = spec_trace_line(stack, ip, op);
    assert(t =~= (head + "["@ + dec_items(stack)) + "]"@);
    assert(t.drop_last() =~= head + "["@ + dec_items(stack));
    assert(stack.push(x).drop_last() =~= stack);
    if stack.len() == 0 {
        assert(dec_items(stack) =~= Seq::<char>::empty());
        assert(spec_trace_line(stack.push(x), ip, op) =~= t.drop_last() + Seq::<char>::empty() + dec_int(x as int) + "]"@);
    } else {
        assert(spec_trace_line(stack.push(x), ip, op) =~= t.drop_last() + ", "@ + dec_int(x as int) + "]"@);
    }
}

/// One step by the opcode byte at `ip`: past the end it is ip-past-end; a
/// byte outside the opcode table is an unknown opcode, and an operand cut
/// off by the end is a truncated instruction, both at `ip` with nothing
/// changed and no event; `HALT` halts with the state kept; any other
/// instruction that does not trap goes on right after its bytecode. A step
/// hands out a trace line (first) only when tracing is on, and at most one
/// printed value.
pub proof fn law_step_by_opcode(s: VmState, code: Seq<u8>, ip: usize)
    ensures
        ({
            let (s1, ev, r) = spec_step(s, code, ip);
            let empty = Seq::<SpecEvent>::empty();
            &&& ip >= code.len() ==> (s1 == s && ev == empty && r == Err::<Step, SpecTrap>(SpecTrap::IpPastEnd { ip }))
            &&& (ip < code.len() && !(code[ip as int] == 0x01 || code[ip as int] == 0x02 || code[ip as int] == 0x03
                || code[ip as int] == 0x04 || code[ip as int] == 0x10 || code[ip as int] == 0x11 || code[ip as int] == 0x12
                || code[ip as int] == 0x13 || code[ip as int] == 0x14 || code[ip as int] == 0x15 || code[ip as int] == 0x40
                || code[ip as int] == 0x41 || code[ip as int] == 0x60 || code[ip as int] == 0xFF)) ==> (s1 == s && ev == empty
                && r == Err::<Step, SpecTrap>(SpecTrap::UnknownOpcode { ip, opc: code[ip as int] }))
            &&& (ip < code.len() && ((code[ip as int] == 0x01 && ip + 9 > code.len()) || ((code[ip as int] == 0x40
                || code[ip as int] == 0x41) && ip + 2 > code.len()))) ==> (s1 == s && ev == empty
                && r == Err::<Step, SpecTrap>(SpecTrap::TruncatedInstr { ip }))
            &&& (ip < code.len() && code[ip as int] == 0xFF) ==> (s1 == s && r == Ok::<Step, SpecTrap>(Step::Halt))
            &&& (ip < code.len() && spec_decode(code, ip as int) is Ok) ==> ({
                let (op, k) = spec_decode(code, ip as int)->Ok_0;
                &&& k == spec_encode(op).len()
                &&& (!(op is Halt) && spec_exec(s, op, ip).1 is Ok) ==> r == Ok::<Step, SpecTrap>(Step::Next((ip + k) as usize))
                &&& !s.trace ==> forall|i: int| 0 <= i < ev.len() ==> #[trigger] ev[i] is Print
                &&& s.trace ==> ev.len() >= 1 && ev[0] == SpecEvent::Trace(spec_trace_line(s.stack, ip, op))
                &&& ev.len() <= 2
            })
        }),
{
    if ip < code.len() {
        law_decode_table(code, ip as int);
        if spec_decode(code, ip as int) is Ok {
            lemma_encode_decode(code, ip as int);
        }
    }
}

/// Every trap report starts `trap at ip=0x` and the offset of the trap in
/// upper-case hexadecimal, at least four digits.
pub proof fn law_report_prefix(t: SpecTrap)
    ensures
        spec_report(t).len() >= 13 + hex_pad(trap_ip(t) as nat, 4).len(),
        spec_report(t).subrange(0, 13) == "trap at ip=0x"@,
        spec_report(t).subrange(13, 13 + hex_pad(trap_ip(t) as nat, 4).len() as int) == hex_pad(trap_ip(t) as nat, 4),
{
    reveal_strlit("trap at ip=0x");
    let h = hex_pad(trap_ip(t) as nat, 4);
    let r = spec_report(t);
    let p = "trap at ip=0x"@ + h;
    assert(r.len() >= p.len());
    assert(r.subrange(0, p.len() as int) =~= p) by {
        assert forall|i: int| 0 <= i < p.len() implies r[i] == p[i] by {
        }
    }
    assert(r.subrange(0, 13) =~= p.subrange(0, 13));
    assert(r.subrange(13, 13 + h.len() as int) =~= p.subrange(13, 13 + h.len() as int));
}

/// The machine's limits: 1024 stack values and 256 global slots, all zero
/// and with an empty stack in a new machine.
pub proof fn law_machine_limits(trace: bool)
    ensures
        MAX_STACK == 1024,
        NUM_SLOTS == 256,
        (VmState { stack: Seq::empty(), globals: Seq::new(NUM_SLOTS as nat, |i: int| 0i64), trace }).valid(),
{
}

} // verus!
