//! The execution engine. The ghost semantics below fix, step by step,
//! what every instruction does to the machine, the input cursor and the
//! two output streams; the executable engine is proved to follow them.
//! Stacks 0, 1 and 2 are intercepted: a pop from 0 reads one input
//! line, a push onto 1 or 2 emits bytes, and a pop from 1 or 2 halts
//! the program with exit code 0 or 1.

use vstd::prelude::*;

verus! {

use crate::big_number::int_bytes_of;
use crate::big_number::Num;
use crate::code::mach_pop;
use crate::code::mach_push;
use crate::code::stack_at;
use crate::code::area_eval;
use crate::code::Area;
use crate::code::AreaChoice;
use crate::code::Code;
use crate::code::Instr;
use crate::code::MachV;
use crate::code::State;
use crate::number::rat_add;
use crate::number::rat_flip;
use crate::number::rat_is_pos;
use crate::number::rat_is_neg;
use crate::number::rat_mul;
use crate::number::rat_neg;
use crate::number::Number;
use crate::number::NumberV;

/// The ghost I/O boundary: the whole input, how much of it is consumed,
/// and the bytes written so far to standard output and standard error.
#[verifier::ext_equal]
pub struct IoV {
    pub input: Seq<char>,
    pub pos: int,
    pub out: Seq<u8>,
    pub err: Seq<u8>,
}

/// The byte a positive finite value prints: its floor modulo 256.
pub open spec fn byte_of(v: NumberV) -> u8
    recommends
        rat_is_pos(v),
{
    match v {
        NumberV::Rat { n, d } => ((n / d) % 256) as u8,
        _ => 0,
    }
}

/// The decimal representation a non-positive or non-finite value
/// prints: `nan`, `inf`, `-inf`, an integer, or `numerator/denominator`.
pub open spec fn number_repr_bytes(v: NumberV) -> Seq<u8> {
    match v {
        NumberV::Nan => seq![110u8, 97u8, 110u8],
        NumberV::PosInf => seq![105u8, 110u8, 102u8],
        NumberV::NegInf => seq![45u8, 105u8, 110u8, 102u8],
        NumberV::Rat { n, d } => if d == 1 {
            int_bytes_of(n, 10)
        } else {
            int_bytes_of(n, 10) + seq![47u8] + int_bytes_of(d, 10)
        },
    }
}

/// What one pushed value emits: a raw byte when positive finite,
/// its decimal representation otherwise.
pub open spec fn number_out_bytes(v: NumberV) -> Seq<u8> {
    if rat_is_pos(v) {
        seq![byte_of(v)]
    } else {
        number_repr_bytes(v)
    }
}

/// A push through the interception guards: stack 1 emits to standard
/// output, stack 2 to standard error, any other index stores the value.
pub open spec fn push_wrap_spec(m: MachV, io: IoV, idx: int, v: NumberV) -> (MachV, IoV) {
    if idx == 1 {
        (m, IoV { out: io.out + number_out_bytes(v), ..io })
    } else if idx == 2 {
        (m, IoV { err: io.err + number_out_bytes(v), ..io })
    } else {
        (mach_push(m, idx, v), io)
    }
}

/// Where the input line starting at `pos` ends: one past its newline,
/// or the end of the input.
pub open spec fn line_end(input: Seq<char>, pos: int) -> int
    decreases input.len() - pos,
    when 0 <= pos <= input.len()
{
    if pos >= input.len() {
        pos
    } else if input[pos] == '\n' {
        pos + 1
    } else {
        line_end(input, pos + 1)
    }
}

/// The Unicode code point of a character.
pub open spec fn char_code(c: char) -> int {
    (c as u32) as int
}

/// The code points of `input[lo..hi]` pushed onto stack 0 in reverse,
/// so the first character of the line ends on top.
pub open spec fn push_codes(m: MachV, input: Seq<char>, lo: int, hi: int) -> MachV
    decreases hi - lo,
    when lo <= hi
{
    if lo >= hi {
        m
    } else {
        mach_push(
            push_codes(m, input, lo + 1, hi),
            0,
            NumberV::Rat { n: char_code(input[lo]), d: 1 },
        )
    }
}

/// The outcome of one intercepted pop.
pub enum PopKind {
    Halt(int),
    Got(NumberV),
}

/// One intercepted pop with the machine and I/O it leaves behind.
pub struct PopSpec {
    pub m: MachV,
    pub io: IoV,
    pub out: PopKind,
}

/// A pop through the interception guards: stack 0 first reads one
/// input line and pushes its code points in reverse; stacks 1 and 2
/// halt the program with exit codes 0 and 1; the rest pop directly,
/// an empty stack yielding the undefined value.
pub open spec fn pop_wrap_spec(m: MachV, io: IoV, idx: int) -> PopSpec
    recommends
        0 <= io.pos <= io.input.len(),
{
    if idx == 1 {
        PopSpec { m, io, out: PopKind::Halt(0) }
    } else if idx == 2 {
        PopSpec { m, io, out: PopKind::Halt(1) }
    } else if idx == 0 {
        let e = line_end(io.input, io.pos);
        let m1 = push_codes(m, io.input, io.pos, e);
        let io1 = IoV { pos: e, ..io };
        let (m2, v) = mach_pop(m1, 0);
        PopSpec { m: m2, io: io1, out: PopKind::Got(v) }
    } else {
        let (m2, v) = mach_pop(m, idx);
        PopSpec { m: m2, io, out: PopKind::Got(v) }
    }
}

/// The values taken by a run of intercepted pops, and whether one of
/// them halted the program instead.
pub struct PopsSpec {
    pub m: MachV,
    pub io: IoV,
    pub halt: Option<int>,
    pub vals: Seq<NumberV>,
}

/// `k` intercepted pops in order; a halt stops the run where it happens.
pub open spec fn pops_spec(m: MachV, io: IoV, idx: int, k: nat) -> PopsSpec
    decreases k,
{
    if k == 0 {
        PopsSpec { m, io, halt: Option::None, vals: Seq::empty() }
    } else {
        let p = pop_wrap_spec(m, io, idx);
        match p.out {
            PopKind::Halt(c) => PopsSpec { m: p.m, io: p.io, halt: Option::Some(c), vals: Seq::empty() },
            PopKind::Got(v) => {
                let rest = pops_spec(p.m, p.io, idx, (k - 1) as nat);
                PopsSpec { m: rest.m, io: rest.io, halt: rest.halt, vals: seq![v] + rest.vals }
            },
        }
    }
}

/// The running sum the engine builds: zero, then each value added
/// in pop order.
pub open spec fn fold_add(vs: Seq<NumberV>) -> NumberV
    decreases vs.len(),
{
    if vs.len() == 0 {
        NumberV::Rat { n: 0, d: 1 }
    } else {
        rat_add(fold_add(vs.drop_last()), vs.last())
    }
}

/// The running product the engine builds: one, then each value
/// multiplied in pop order.
pub open spec fn fold_mul(vs: Seq<NumberV>) -> NumberV
    decreases vs.len(),
{
    if vs.len() == 0 {
        NumberV::Rat { n: 1, d: 1 }
    } else {
        rat_mul(fold_mul(vs.drop_last()), vs.last())
    }
}

/// The values pushed back in order through the interception guards.
pub open spec fn push_list(m: MachV, io: IoV, idx: int, vs: Seq<NumberV>) -> (MachV, IoV)
    decreases vs.len(),
{
    if vs.len() == 0 {
        (m, io)
    } else {
        let (m1, io1) = push_list(m, io, idx, vs.drop_last());
        push_wrap_spec(m1, io1, idx, vs.last())
    }
}

/// One value pushed `k` times through the interception guards.
pub open spec fn push_n(m: MachV, io: IoV, idx: int, v: NumberV, k: nat) -> (MachV, IoV)
    decreases k,
{
    if k == 0 {
        (m, io)
    } else {
        let (m1, io1) = push_n(m, io, idx, v, (k - 1) as nat);
        push_wrap_spec(m1, io1, idx, v)
    }
}

/// The machine and I/O an opcode leaves, or the exit it forces.
pub struct StepRes {
    pub m: MachV,
    pub io: IoV,
    pub halt: Option<int>,
}

/// The opcode effect of one instruction, before its area is evaluated.
/// An opcode outside 0..=5 changes nothing.
pub open spec fn instr_step(ins: Instr, m: MachV, io: IoV) -> StepRes {
    let cur = m.cur;
    if ins.op == 0 {
        let (m1, io1) = push_wrap_spec(
            m,
            io,
            cur,
            NumberV::Rat { n: (ins.hangul * ins.dot) as int, d: 1 },
        );
        StepRes { m: m1, io: io1, halt: Option::None }
    } else if ins.op == 1 {
        let ps = pops_spec(m, io, cur, ins.hangul);
        if ps.halt is Some {
            StepRes { m: ps.m, io: ps.io, halt: ps.halt }
        } else {
            let (m1, io1) = push_wrap_spec(ps.m, ps.io, ins.dot as int, fold_add(ps.vals));
            StepRes { m: m1, io: io1, halt: Option::None }
        }
    } else if ins.op == 2 {
        let ps = pops_spec(m, io, cur, ins.hangul);
        if ps.halt is Some {
            StepRes { m: ps.m, io: ps.io, halt: ps.halt }
        } else {
            let (m1, io1) = push_wrap_spec(ps.m, ps.io, ins.dot as int, fold_mul(ps.vals));
            StepRes { m: m1, io: io1, halt: Option::None }
        }
    } else if ins.op == 3 {
        let ps = pops_spec(m, io, cur, ins.hangul);
        if ps.halt is Some {
            StepRes { m: ps.m, io: ps.io, halt: ps.halt }
        } else {
            let negs = ps.vals.map_values(|v: NumberV| rat_neg(v));
            let (m1, io1) = push_list(ps.m, ps.io, cur, negs);
            let (m2, io2) = push_wrap_spec(m1, io1, ins.dot as int, fold_add(negs));
            StepRes { m: m2, io: io2, halt: Option::None }
        }
    } else if ins.op == 4 {
        let ps = pops_spec(m, io, cur, ins.hangul);
        if ps.halt is Some {
            StepRes { m: ps.m, io: ps.io, halt: ps.halt }
        } else {
            let flips = ps.vals.map_values(|v: NumberV| rat_flip(v));
            let (m1, io1) = push_list(ps.m, ps.io, cur, flips);
            let (m2, io2) = push_wrap_spec(m1, io1, ins.dot as int, fold_mul(flips));
            StepRes { m: m2, io: io2, halt: Option::None }
        }
    } else if ins.op == 5 {
        let p = pop_wrap_spec(m, io, cur);
        match p.out {
            PopKind::Halt(c) => StepRes { m: p.m, io: p.io, halt: Option::Some(c) },
            PopKind::Got(v) => {
                let (m1, io1) = push_n(p.m, p.io, ins.dot as int, v, ins.hangul);
                let (m2, io2) = push_wrap_spec(m1, io1, cur, v);
                let m3 = MachV { cur: ins.dot as int, ..m2 };
                StepRes { m: m3, io: io2, halt: Option::None }
            },
        }
    } else {
        StepRes { m, io, halt: Option::None }
    }
}

/// Where execution goes after one instruction.
pub enum StepNext {
    Goto(int),
    Halt(int),
}

/// One whole step: the machine, the I/O, and the next instruction
/// pointer or the exit code.
pub struct StepOut {
    pub m: MachV,
    pub io: IoV,
    pub next: StepNext,
}

/// The stack-top tests the area is evaluated against: an empty stack
/// counts as undefined.
pub open spec fn top_of(m: MachV) -> NumberV {
    let s = stack_at(m, m.cur);
    if s.len() == 0 {
        NumberV::Nan
    } else {
        s.last()
    }
}

/// The area phase: evaluate the instruction's area against the new
/// top of the current stack, register a first-seen target, and pick
/// the next instruction pointer. A target of kind 13 re-points to the
/// current location and jumps there at once; any other target jumps
/// only to a location registered at an earlier instruction.
pub open spec fn area_step(a: Area, m: MachV, io: IoV, ip: int) -> StepOut {
    let t = top_of(m);
    let undef = t is Nan;
    let neg = rat_is_neg(t);
    match area_eval(a, undef, neg) {
        AreaChoice::Stay => StepOut { m, io, next: StepNext::Goto(ip + 1) },
        AreaChoice::Jump(k) => {
            if k == 13 {
                match m.points[13] {
                    Option::None => StepOut {
                        m: MachV { points: m.points.update(13, Option::Some(ip)), ..m },
                        io,
                        next: StepNext::Goto(ip),
                    },
                    Option::Some(p) => StepOut { m, io, next: StepNext::Goto(p) },
                }
            } else if 2 <= k <= 12 {
                match m.points[k as int] {
                    Option::None => StepOut {
                        m: MachV { points: m.points.update(k as int, Option::Some(ip)), ..m },
                        io,
                        next: StepNext::Goto(ip + 1),
                    },
                    Option::Some(p) => if p == ip {
                        StepOut { m, io, next: StepNext::Goto(ip + 1) }
                    } else {
                        StepOut { m, io, next: StepNext::Goto(p) }
                    },
                }
            } else {
                StepOut { m, io, next: StepNext::Goto(ip + 1) }
            }
        },
    }
}

/// One full step of the instruction at `ip`: the opcode effect, then
/// the area phase, unless the opcode already halted the program.
pub open spec fn step_spec(code: Seq<Instr>, ip: int, m: MachV, io: IoV) -> StepOut
    recommends
        0 <= ip < code.len(),
{
    let ins = code[ip];
    let r = instr_step(ins, m, io);
    match r.halt {
        Option::Some(c) => StepOut { m: r.m, io: r.io, next: StepNext::Halt(c) },
        Option::None => area_step(ins.area, r.m, r.io, ip),
    }
}

/// A run after some number of steps: still at an instruction pointer,
/// or done with an exit code. A pointer outside the code vector stays
/// where it is; running off the end is reported by the engine, not here.
pub enum RunOut {
    Running { ip: int, m: MachV, io: IoV },
    Done { exit: int, io: IoV },
}

/// The state of a run after `n` steps, peeling the last step so that
/// a stepping loop extends a run by one.
pub open spec fn run_n(code: Seq<Instr>, ip0: int, m0: MachV, io0: IoV, n: nat) -> RunOut
    decreases n,
{
    if n == 0 {
        RunOut::Running { ip: ip0, m: m0, io: io0 }
    } else {
        match run_n(code, ip0, m0, io0, (n - 1) as nat) {
            RunOut::Done { exit, io } => RunOut::Done { exit, io },
            RunOut::Running { ip, m, io } => {
                if 0 <= ip < code.len() {
                    let s = step_spec(code, ip, m, io);
                    match s.next {
                        StepNext::Halt(c) => RunOut::Done { exit: c, io: s.io },
                        StepNext::Goto(p) => RunOut::Running { ip: p, m: s.m, io: s.io },
                    }
                } else {
                    RunOut::Running { ip, m, io }
                }
            },
        }
    }
}

/// A run that has halted, or has left the code vector, never moves
/// again: later step counts report the same outcome.
pub proof fn lemma_run_stable(code: Seq<Instr>, ip0: int, m0: MachV, io0: IoV, n1: nat, n2: nat)
    requires
        n1 <= n2,
        match run_n(code, ip0, m0, io0, n1) {
            RunOut::Done { .. } => true,
            RunOut::Running { ip, .. } => !(0 <= ip < code.len()),
        },
    ensures
        run_n(code, ip0, m0, io0, n2) == run_n(code, ip0, m0, io0, n1),
    decreases n2,
{
    if n2 > n1 {
        lemma_run_stable(code, ip0, m0, io0, n1, (n2 - 1) as nat);
    }
}

/// Two step counts that both see the run done report the same exit
/// code and the same I/O: the run's outcome is unique.
pub proof fn lemma_run_deterministic(
    code: Seq<Instr>,
    ip0: int,
    m0: MachV,
    io0: IoV,
    n1: nat,
    n2: nat,
)
    requires
        run_n(code, ip0, m0, io0, n1) is Done,
        run_n(code, ip0, m0, io0, n2) is Done,
    ensures
        run_n(code, ip0, m0, io0, n1) == run_n(code, ip0, m0, io0, n2),
{
    if n1 <= n2 {
        lemma_run_stable(code, ip0, m0, io0, n1, n2);
    } else {
        lemma_run_stable(code, ip0, m0, io0, n2, n1);
    }
}

/// Instructions the engine cannot tell apart: equal opcode and area,
/// and equal counts — except that a push uses its two counts only
/// through their product.
pub open spec fn instr_equiv(a: Instr, b: Instr) -> bool {
    &&& a.op == b.op
    &&& a.area == b.area
    &&& if a.op == 0 {
        a.hangul * a.dot == b.hangul * b.dot
    } else {
        a.hangul == b.hangul && a.dot == b.dot
    }
}

/// One step cannot distinguish equivalent instructions: both programs
/// step to the same machine, the same I/O and the same next pointer.
pub proof fn lemma_step_equiv(c1: Seq<Instr>, c2: Seq<Instr>, ip: int, m: MachV, io: IoV)
    requires
        c1.len() == c2.len(),
        0 <= ip < c1.len(),
        instr_equiv(c1[ip], c2[ip]),
    ensures
        step_spec(c1, ip, m, io) == step_spec(c2, ip, m, io),
{
    let a = c1[ip];
    let b = c2[ip];
    if a.op == 0 {
        assert((a.hangul * a.dot) as int == (b.hangul * b.dot) as int);
        assert(instr_step(a, m, io) == instr_step(b, m, io));
    } else {
        assert(a == b);
    }
}

/// A whole run cannot distinguish two programs whose instructions are
/// pairwise equivalent: every step count reports the same outcome.
pub proof fn lemma_run_equiv(
    c1: Seq<Instr>,
    c2: Seq<Instr>,
    ip0: int,
    m0: MachV,
    io0: IoV,
    n: nat,
)
    requires
        c1.len() == c2.len(),
        forall|i: int| 0 <= i < c1.len() ==> instr_equiv(#[trigger] c1[i], c2[i]),
    ensures
        run_n(c1, ip0, m0, io0, n) == run_n(c2, ip0, m0, io0, n),
    decreases n,
{
    if n > 0 {
        lemma_run_equiv(c1, c2, ip0, m0, io0, (n - 1) as nat);
        match run_n(c1, ip0, m0, io0, (n - 1) as nat) {
            RunOut::Running { ip, m, io } => {
                if 0 <= ip < c1.len() {
                    lemma_step_equiv(c1, c2, ip, m, io);
                }
            },
            RunOut::Done { .. } => {},
        }
    }
}

/// The bytes a list of values emits, one group per value.
pub open spec fn out_cat(vs: Seq<NumberV>) -> Seq<u8>
    decreases vs.len(),
{
    if vs.len() == 0 {
        Seq::empty()
    } else {
        out_cat(vs.drop_last()) + number_out_bytes(vs.last())
    }
}

/// Pushing a list of values onto stack 1 appends exactly their bytes,
/// in push order, to standard output, and touches nothing else; when
/// every value is positive finite, what is appended is exactly the
/// concatenation of their floor-modulo-256 bytes, one byte per value.
pub proof fn lemma_output_bytes(m: MachV, io: IoV, vs: Seq<NumberV>)
    ensures
        push_list(m, io, 1, vs).1.out == io.out + out_cat(vs),
        push_list(m, io, 1, vs).1.err == io.err,
        push_list(m, io, 1, vs).1.input == io.input,
        push_list(m, io, 1, vs).1.pos == io.pos,
        (forall|i: int| 0 <= i < vs.len() ==> rat_is_pos(#[trigger] vs[i])) ==> push_list(
            m,
            io,
            1,
            vs,
        ).1.out == io.out + vs.map_values(|v: NumberV| byte_of(v)),
    decreases vs.len(),
{
    if vs.len() == 0 {
        assert(io.out + out_cat(vs) =~= io.out);
        assert(io.out + vs.map_values(|v: NumberV| byte_of(v)) =~= io.out);
    } else {
        lemma_output_bytes(m, io, vs.drop_last());
        assert(io.out + (out_cat(vs.drop_last()) + number_out_bytes(vs.last())) =~= (io.out
            + out_cat(vs.drop_last())) + number_out_bytes(vs.last()));
        if forall|i: int| 0 <= i < vs.len() ==> rat_is_pos(#[trigger] vs[i]) {
            assert(forall|i: int|
                0 <= i < vs.drop_last().len() ==> rat_is_pos(#[trigger] vs.drop_last()[i]));
            assert(rat_is_pos(vs.last()));
            assert(number_out_bytes(vs.last()) == seq![byte_of(vs.last())]);
            assert(io.out + vs.map_values(|v: NumberV| byte_of(v)) =~= (io.out + vs.drop_last(
            ).map_values(|v: NumberV| byte_of(v))) + seq![byte_of(vs.last())]);
        }
    }
}

/// The byte streams and the input the engine runs against.
pub struct IoBuf {
    pub input: Vec<char>,
    pub pos: usize,
    pub out: Vec<u8>,
    pub err: Vec<u8>,
}

impl View for IoBuf {
    type V = IoV;

    open spec fn view(&self) -> IoV {
        IoV { input: self.input@, pos: self.pos as int, out: self.out@, err: self.err@ }
    }
}

impl IoBuf {
    /// The cursor stays inside the input.
    pub open spec fn inv(&self) -> bool {
        self.pos <= self.input@.len()
    }

    /// Fresh streams over the given input.
    pub fn new(input: Vec<char>) -> (r: IoBuf)
        ensures
            r.inv(),
            r@ == (IoV { input: input@, pos: 0, out: Seq::empty(), err: Seq::empty() }),
    {
        let r = IoBuf { input, pos: 0, out: Vec::new(), err: Vec::new() };
        proof {
            assert(r@ =~~= (IoV { input: r.input@, pos: 0, out: Seq::empty(), err: Seq::empty() }));
        }
        r
    }
}

/// Appends every byte of `src` to `dst`.
fn append_bytes(dst: &mut Vec<u8>, src: &Vec<u8>)
    ensures
        final (dst)@ == old(dst)@ + src@,
{
    let mut i: usize = 0;
    while i < src.len()
        invariant
            i <= src@.len(),
            dst@ =~= old(dst)@ + src@.take(i as int),
        decreases src@.len() - i,
    {
        dst.push(src[i]);
        i += 1;
    }
    proof {
        assert(src@.take(src@.len() as int) =~= src@);
    }
}

/// The bytes one pushed value emits: a raw byte for a positive finite
/// value, the decimal representation otherwise.
fn num_out_bytes(x: &Number) -> (r: Vec<u8>)
    requires
        x.wf(),
    ensures
        r@ == number_out_bytes(x@),
{
    if x.is_pos() {
        let fl = x.floor();
        match fl {
            Number::Finite { n: q, d: _one } => {
                proof {
                    match x@ {
                        NumberV::Rat { n, d } => {
                            vstd::arithmetic::div_mod::lemma_fundamental_div_mod(n, d);
                            assert(q@ == n / d);
                            assert(q@ >= 0) by (nonlinear_arith)
                                requires
                                    n == d * (n / d) + n % d,
                                    q@ == n / d,
                                    n > 0,
                                    d >= 1,
                                    0 <= n % d < d,
                            ;
                        },
                        _ => {
                            assert(false);
                        },
                    }
                }
                let b256 = Num::new(256);
                let m = Num::rem(&q, &b256);
                proof {
                    vstd::arithmetic::div_mod::lemma_fundamental_div_mod(q@, 256);
                    assert(crate::big_number::trunc_div(q@, 256) == q@ / 256);
                    assert(m@ == q@ % 256);
                    if m.val@.len() > 1 {
                        crate::big_number::lemma_limbs_val_low(m.val@);
                        crate::big_number::lemma_pow_b_one();
                        crate::big_number::lemma_pow_b_mono(1, (m.val@.len() - 1) as nat);
                        assert(false);
                    }
                    assert(m.val@.drop_first() =~= Seq::<u32>::empty());
                    assert(crate::big_number::limbs_val(m.val@) == m.val@[0] as nat);
                }
                let b: u8 = m.val[0] as u8;
                let mut r: Vec<u8> = Vec::new();
                r.push(b);
                proof {
                    assert(r@ =~= seq![byte_of(x@)]);
                }
                r
            },
            _ => {
                proof {
                    assert(false);
                }
                Vec::new()
            },
        }
    } else {
        match x {
            Number::Nan => {
                let mut r: Vec<u8> = Vec::new();
                r.push(110u8);
                r.push(97u8);
                r.push(110u8);
                proof {
                    assert(r@ =~= seq![110u8, 97u8, 110u8]);
                }
                r
            },
            Number::PosInf => {
                let mut r: Vec<u8> = Vec::new();
                r.push(105u8);
                r.push(110u8);
                r.push(102u8);
                proof {
                    assert(r@ =~= seq![105u8, 110u8, 102u8]);
                }
                r
            },
            Number::NegInf => {
                let mut r: Vec<u8> = Vec::new();
                r.push(45u8);
                r.push(105u8);
                r.push(110u8);
                r.push(102u8);
                proof {
                    assert(r@ =~= seq![45u8, 105u8, 110u8, 102u8]);
                }
                r
            },
            Number::Finite { n, d } => {
                let mut r = n.to_bytes_base(10);
                let one = Num::one();
                if Num::lt(&one, d) {
                    r.push(47u8);
                    let db = d.to_bytes_base(10);
                    append_bytes(&mut r, &db);
                    proof {
                        assert(r@ =~= int_bytes_of(n@, 10) + seq![47u8] + int_bytes_of(d@, 10));
                    }
                    r
                } else {
                    proof {
                        assert(d@ == 1);
                    }
                    r
                }
            },
        }
    }
}

/// A push through the interception guards: stack 1 emits to standard
/// output, stack 2 to standard error, the rest store the value.
fn push_stack_wrap<T: State>(io: &mut IoBuf, state: &mut T, idx: usize, num: Number)
    requires
        old(state).inv(),
        old(io).inv(),
        num.wf(),
    ensures
        final (state).inv(),
        final (io).inv(),
        final (state).mach() == push_wrap_spec(old(state).mach(), old(io)@, idx as int, num@).0,
        final (io)@ == push_wrap_spec(old(state).mach(), old(io)@, idx as int, num@).1,
        final (state).code_view() == old(state).code_view(),
{
    if idx == 1 {
        let b = num_out_bytes(&num);
        append_bytes(&mut io.out, &b);
        proof {
            assert(io@ =~~= push_wrap_spec(old(state).mach(), old(io)@, idx as int, num@).1);
        }
    } else if idx == 2 {
        let b = num_out_bytes(&num);
        append_bytes(&mut io.err, &b);
        proof {
            assert(io@ =~~= push_wrap_spec(old(state).mach(), old(io)@, idx as int, num@).1);
        }
    } else {
        state.push_stack(idx, num);
    }
}

/// A pop through the interception guards: stack 0 reads one input line
/// first; stacks 1 and 2 halt the program with exit codes 0 and 1.
fn pop_stack_wrap<T: State>(io: &mut IoBuf, state: &mut T, idx: usize) -> (r: Result<Number, u8>)
    requires
        old(state).inv(),
        old(io).inv(),
    ensures
        final (state).inv(),
        final (io).inv(),
        final (state).mach() == pop_wrap_spec(old(state).mach(), old(io)@, idx as int).m,
        final (io)@ == pop_wrap_spec(old(state).mach(), old(io)@, idx as int).io,
        match r {
            Result::Ok(v) => v.wf() && pop_wrap_spec(old(state).mach(), old(io)@, idx as int).out
                == PopKind::Got(v@),
            Result::Err(c) => pop_wrap_spec(old(state).mach(), old(io)@, idx as int).out
                == PopKind::Halt(c as int),
        },
        final (state).code_view() == old(state).code_view(),
{
    if idx == 1 {
        Result::Err(0)
    } else if idx == 2 {
        Result::Err(1)
    } else if idx == 0 {
        let mut e: usize = io.pos;
        while e < io.input.len() && io.input[e] != '\n'
            invariant
                io.pos <= e <= io.input@.len(),
                io == old(io),
                line_end(io@.input, io.pos as int) == line_end(io@.input, e as int),
            decreases io.input@.len() - e,
        {
            e += 1;
        }
        let end: usize = if e < io.input.len() {
            e + 1
        } else {
            e
        };
        proof {
            assert(end as int == line_end(io@.input, io.pos as int));
        }
        let ghost m0 = state.mach();
        let mut j: usize = end;
        while j > io.pos
            invariant
                io.pos <= j <= end,
                end <= io.input@.len(),
                io == old(io),
                state.inv(),
                state.code_view() == old(state).code_view(),
                state.mach() == push_codes(m0, io@.input, j as int, end as int),
            decreases j,
        {
            j -= 1;
            let c: char = io.input[j];
            let num = Number::from_usize((c as u32) as usize);
            proof {
                assert(((c as u32) as usize) as int == (c as u32) as int);
                assert(num@ == (NumberV::Rat { n: char_code(io@.input[j as int]), d: 1 }));
            }
            state.push_stack(0, num);
            proof {
                assert(push_codes(m0, io@.input, j as int, end as int) == mach_push(
                    push_codes(m0, io@.input, j as int + 1, end as int),
                    0,
                    NumberV::Rat { n: char_code(io@.input[j as int]), d: 1 },
                ));
                assert(state.mach() == push_codes(m0, io@.input, j as int, end as int));
            }
        }
        io.pos = end;
        let v = state.pop_stack(0);
        proof {
            let p = pop_wrap_spec(m0, old(io)@, 0);
            assert(io@ =~~= p.io);
            assert(state.mach() == p.m);
            assert(p.out == PopKind::Got(v@));
        }
        Result::Ok(v)
    } else {
        let v = state.pop_stack(idx);
        Result::Ok(v)
    }
}

/// `k` intercepted pops collected in order; `Err` reports the exit a
/// pop from stack 1 or 2 forced.
fn pop_many<T: State>(io: &mut IoBuf, state: &mut T, idx: usize, k: usize) -> (r: Result<
    Vec<Number>,
    u8,
>)
    requires
        old(state).inv(),
        old(io).inv(),
    ensures
        final (state).inv(),
        final (io).inv(),
        final (state).code_view() == old(state).code_view(),
        final (state).mach() == pops_spec(old(state).mach(), old(io)@, idx as int, k as nat).m,
        final (io)@ == pops_spec(old(state).mach(), old(io)@, idx as int, k as nat).io,
        match r {
            Result::Ok(buf) => pops_spec(old(state).mach(), old(io)@, idx as int, k as nat).halt
                is None && buf@.map_values(|x: Number| x@) == pops_spec(
                old(state).mach(),
                old(io)@,
                idx as int,
                k as nat,
            ).vals && (forall|j: int| 0 <= j < buf@.len() ==> (#[trigger] buf@[j]).wf()),
            Result::Err(c) => pops_spec(old(state).mach(), old(io)@, idx as int, k as nat).halt
                == Option::Some(c as int),
        },
{
    let ghost total = pops_spec(old(state).mach(), old(io)@, idx as int, k as nat);
    let mut buf: Vec<Number> = Vec::new();
    let mut i: usize = 0;
    proof {
        assert(buf@.map_values(|x: Number| x@) + total.vals =~= total.vals);
    }
    while i < k
        invariant
            i <= k,
            state.inv(),
            io.inv(),
            state.code_view() == old(state).code_view(),
            total == pops_spec(old(state).mach(), old(io)@, idx as int, k as nat),
            total.halt == pops_spec(state.mach(), io@, idx as int, (k - i) as nat).halt,
            total.m == pops_spec(state.mach(), io@, idx as int, (k - i) as nat).m,
            total.io == pops_spec(state.mach(), io@, idx as int, (k - i) as nat).io,
            total.vals == buf@.map_values(|x: Number| x@) + pops_spec(
                state.mach(),
                io@,
                idx as int,
                (k - i) as nat,
            ).vals,
            forall|j: int| 0 <= j < buf@.len() ==> (#[trigger] buf@[j]).wf(),
        decreases k - i,
    {
        let ghost rem = pops_spec(state.mach(), io@, idx as int, (k - i) as nat);
        let ghost mpre = state.mach();
        let ghost iopre = io@;
        match pop_stack_wrap(io, state, idx) {
            Result::Err(c) => {
                proof {
                    assert(rem.halt == Option::Some(c as int));
                    assert(rem.m == state.mach());
                    assert(rem.io == io@);
                }
                return Result::Err(c);
            },
            Result::Ok(v) => {
                proof {
                    let p = pop_wrap_spec(mpre, iopre, idx as int);
                    let rest = pops_spec(p.m, p.io, idx as int, (k - i - 1) as nat);
                    assert(rem.vals == seq![v@] + rest.vals);
                    assert(buf@.map_values(|x: Number| x@).push(v@) =~= buf@.push(v).map_values(
                        |x: Number| x@,
                    ));
                    assert(buf@.map_values(|x: Number| x@) + (seq![v@] + rest.vals) =~= (
                    buf@.map_values(|x: Number| x@).push(v@)) + rest.vals);
                }
                buf.push(v);
                i += 1;
            },
        }
    }
    proof {
        assert(buf@.map_values(|x: Number| x@) + pops_spec(
            state.mach(),
            io@,
            idx as int,
            0,
        ).vals =~= buf@.map_values(|x: Number| x@));
    }
    Result::Ok(buf)
}

/// The running sum of a buffer of values, in order, from zero.
fn fold_add_exec(buf: &Vec<Number>) -> (r: Number)
    requires
        forall|j: int| 0 <= j < buf@.len() ==> (#[trigger] buf@[j]).wf(),
    ensures
        r.wf(),
        r@ == fold_add(buf@.map_values(|x: Number| x@)),
{
    let ghost vals = buf@.map_values(|x: Number| x@);
    let mut acc = Number::zero();
    let mut i: usize = 0;
    proof {
        assert(vals.take(0) =~= Seq::<NumberV>::empty());
    }
    while i < buf.len()
        invariant
            i <= buf@.len(),
            vals == buf@.map_values(|x: Number| x@),
            forall|j: int| 0 <= j < buf@.len() ==> (#[trigger] buf@[j]).wf(),
            acc.wf(),
            acc@ == fold_add(vals.take(i as int)),
        decreases buf@.len() - i,
    {
        let next = acc.add(&buf[i]);
        proof {
            assert(vals.take(i as int + 1).drop_last() =~= vals.take(i as int));
            assert(vals.take(i as int + 1).last() == vals[i as int]);
        }
        acc = next;
        i += 1;
    }
    proof {
        assert(vals.take(buf@.len() as int) =~= vals);
    }
    acc
}

/// The running product of a buffer of values, in order, from one.
fn fold_mul_exec(buf: &Vec<Number>) -> (r: Number)
    requires
        forall|j: int| 0 <= j < buf@.len() ==> (#[trigger] buf@[j]).wf(),
    ensures
        r.wf(),
        r@ == fold_mul(buf@.map_values(|x: Number| x@)),
{
    let ghost vals = buf@.map_values(|x: Number| x@);
    let mut acc = Number::one();
    let mut i: usize = 0;
    proof {
        assert(vals.take(0) =~= Seq::<NumberV>::empty());
    }
    while i < buf.len()
        invariant
            i <= buf@.len(),
            vals == buf@.map_values(|x: Number| x@),
            forall|j: int| 0 <= j < buf@.len() ==> (#[trigger] buf@[j]).wf(),
            acc.wf(),
            acc@ == fold_mul(vals.take(i as int)),
        decreases buf@.len() - i,
    {
        let next = acc.mul(&buf[i]);
        proof {
            assert(vals.take(i as int + 1).drop_last() =~= vals.take(i as int));
            assert(vals.take(i as int + 1).last() == vals[i as int]);
        }
        acc = next;
        i += 1;
    }
    proof {
        assert(vals.take(buf@.len() as int) =~= vals);
    }
    acc
}

/// What one engine step reports: the next instruction pointer, or the
/// exit code a pop from stack 1 or 2 forced.
pub enum StepOutcome {
    Next(usize),
    Halted(u8),
}

/// Executes the instruction at `ip`: the opcode effect, then the area
/// phase, exactly as `step_spec` fixes them.
#[verifier::rlimit(100)]
pub fn step_once<T: State>(io: &mut IoBuf, state: &mut T, ip: usize) -> (r: StepOutcome)
    requires
        old(state).inv(),
        old(io).inv(),
        ip < old(state).code_view().len(),
    ensures
        final (state).inv(),
        final (io).inv(),
        final (state).code_view() == old(state).code_view(),
        final (state).mach() == step_spec(
            old(state).code_view(),
            ip as int,
            old(state).mach(),
            old(io)@,
        ).m,
        final (io)@ == step_spec(old(state).code_view(), ip as int, old(state).mach(), old(io)@).io,
        match r {
            StepOutcome::Next(p) => step_spec(
                old(state).code_view(),
                ip as int,
                old(state).mach(),
                old(io)@,
            ).next == StepNext::Goto(p as int),
            StepOutcome::Halted(c) => step_spec(
                old(state).code_view(),
                ip as int,
                old(state).mach(),
                old(io)@,
            ).next == StepNext::Halt(c as int),
        },
{
    let ghost cv = old(state).code_view();
    let ghost m0 = old(state).mach();
    let ghost io0 = old(io)@;
    let ghost ins = cv[ip as int];
    let total = state.code_len();
    let cref = state.get_code(ip);
    let op = cref.get_type();
    let h = cref.get_hangul_count();
    let dd = cref.get_dot_count();
    let area = cref.get_area().dup();
    let cur = state.current_stack();
    let ghost sr = instr_step(ins, m0, io0);
    if op == 0 {
        let hn = Number::from_usize(h);
        let dn = Number::from_usize(dd);
        let v = hn.mul(&dn);
        proof {
            let prod = (h as int) * (dd as int);
            assert(v@ == crate::number::rat_norm(prod, 1int * 1int));
            assert(1int * 1int == 1);
            crate::number::lemma_norm_one(prod);
            assert(v@ == (NumberV::Rat { n: prod, d: 1 }));
            assert((ins.hangul * ins.dot) as int == prod) by (nonlinear_arith)
                requires
                    ins.hangul == h as nat,
                    ins.dot == dd as nat,
                    prod == (h as int) * (dd as int),
            ;
        }
        push_stack_wrap(io, state, cur, v);
    } else if op == 1 {
        match pop_many(io, state, cur, h) {
            Result::Err(c) => {
                return StepOutcome::Halted(c);
            },
            Result::Ok(buf) => {
                let s = fold_add_exec(&buf);
                push_stack_wrap(io, state, dd, s);
            },
        }
    } else if op == 2 {
        match pop_many(io, state, cur, h) {
            Result::Err(c) => {
                return StepOutcome::Halted(c);
            },
            Result::Ok(buf) => {
                let s = fold_mul_exec(&buf);
                push_stack_wrap(io, state, dd, s);
            },
        }
    } else if op == 3 {
        match pop_many(io, state, cur, h) {
            Result::Err(c) => {
                return StepOutcome::Halted(c);
            },
            Result::Ok(buf) => {
                let ghost vals = buf@.map_values(|x: Number| x@);
                let ghost negs = vals.map_values(|v: NumberV| rat_neg(v));
                let ghost m1 = state.mach();
                let ghost io1 = io@;
                let mut acc = Number::zero();
                let mut i: usize = 0;
                proof {
                    assert(negs.take(0) =~= Seq::<NumberV>::empty());
                }
                while i < buf.len()
                    invariant
                        i <= buf@.len(),
                        vals == buf@.map_values(|x: Number| x@),
                        negs == vals.map_values(|v: NumberV| rat_neg(v)),
                        forall|j: int| 0 <= j < buf@.len() ==> (#[trigger] buf@[j]).wf(),
                        state.inv(),
                        io.inv(),
                        state.code_view() == old(state).code_view(),
                        acc.wf(),
                        acc@ == fold_add(negs.take(i as int)),
                        state.mach() == push_list(m1, io1, cur as int, negs.take(i as int)).0,
                        io@ == push_list(m1, io1, cur as int, negs.take(i as int)).1,
                    decreases buf@.len() - i,
                {
                    let nx = buf[i].neg();
                    let nx2 = nx.clone();
                    proof {
                        assert(negs.take(i as int + 1).drop_last() =~= negs.take(i as int));
                        assert(negs.take(i as int + 1).last() == negs[i as int]);
                        assert(negs[i as int] == rat_neg(vals[i as int]));
                    }
                    push_stack_wrap(io, state, cur, nx2);
                    let next = acc.add(&nx);
                    acc = next;
                    i += 1;
                }
                proof {
                    assert(negs.take(buf@.len() as int) =~= negs);
                }
                push_stack_wrap(io, state, dd, acc);
            },
        }
    } else if op == 4 {
        match pop_many(io, state, cur, h) {
            Result::Err(c) => {
                return StepOutcome::Halted(c);
            },
            Result::Ok(buf) => {
                let ghost vals = buf@.map_values(|x: Number| x@);
                let ghost flips = vals.map_values(|v: NumberV| rat_flip(v));
                let ghost m1 = state.mach();
                let ghost io1 = io@;
                let mut acc = Number::one();
                let mut i: usize = 0;
                proof {
                    assert(flips.take(0) =~= Seq::<NumberV>::empty());
                }
                while i < buf.len()
                    invariant
                        i <= buf@.len(),
                        vals == buf@.map_values(|x: Number| x@),
                        flips == vals.map_values(|v: NumberV| rat_flip(v)),
                        forall|j: int| 0 <= j < buf@.len() ==> (#[trigger] buf@[j]).wf(),
                        state.inv(),
                        io.inv(),
                        state.code_view() == old(state).code_view(),
                        acc.wf(),
                        acc@ == fold_mul(flips.take(i as int)),
                        state.mach() == push_list(m1, io1, cur as int, flips.take(i as int)).0,
                        io@ == push_list(m1, io1, cur as int, flips.take(i as int)).1,
                    decreases buf@.len() - i,
                {
                    let nx = buf[i].flip();
                    let nx2 = nx.clone();
                    proof {
                        assert(flips.take(i as int + 1).drop_last() =~= flips.take(i as int));
                        assert(flips.take(i as int + 1).last() == flips[i as int]);
                        assert(flips[i as int] == rat_flip(vals[i as int]));
                    }
                    push_stack_wrap(io, state, cur, nx2);
                    let next = acc.mul(&nx);
                    acc = next;
                    i += 1;
                }
                proof {
                    assert(flips.take(buf@.len() as int) =~= flips);
                }
                push_stack_wrap(io, state, dd, acc);
            },
        }
    } else if op == 5 {
        match pop_stack_wrap(io, state, cur) {
            Result::Err(c) => {
                return StepOutcome::Halted(c);
            },
            Result::Ok(n) => {
                let ghost m1 = state.mach();
                let ghost io1 = io@;
                let mut i: usize = 0;
                while i < h
                    invariant
                        i <= h,
                        n.wf(),
                        state.inv(),
                        io.inv(),
                        state.code_view() == old(state).code_view(),
                        state.mach() == push_n(m1, io1, dd as int, n@, i as nat).0,
                        io@ == push_n(m1, io1, dd as int, n@, i as nat).1,
                    decreases h - i,
                {
                    let c2 = n.clone();
                    push_stack_wrap(io, state, dd, c2);
                    i += 1;
                }
                push_stack_wrap(io, state, cur, n);
                state.set_current_stack(dd);
            },
        }
    } else {
        proof {
            assert(sr == (StepRes { m: m0, io: io0, halt: Option::None }));
        }
    }
    proof {
        assert(state.mach() == sr.m);
        assert(io@ == sr.io);
        assert(sr.halt is None);
    }
    let cur2 = state.current_stack();
    let top = state.peek_stack(cur2);
    let undef = match &top {
        Option::None => true,
        Option::Some(v) => v.is_nan(),
    };
    let neg = match &top {
        Option::None => false,
        Option::Some(v) => v.is_neg(),
    };
    proof {
        let t = top_of(sr.m);
        assert(undef == (t is Nan));
        assert(neg == rat_is_neg(t));
        assert(area == ins.area);
    }
    let ghost asx = area_step(ins.area, sr.m, sr.io, ip as int);
    match area.eval(undef, neg) {
        AreaChoice::Stay => StepOutcome::Next(ip + 1),
        AreaChoice::Jump(k) => {
            if k == 13 {
                match state.get_point(13) {
                    Option::None => {
                        state.set_point(13, ip);
                        proof {
                            assert(state.mach() == asx.m);
                        }
                        StepOutcome::Next(ip)
                    },
                    Option::Some(p) => StepOutcome::Next(p),
                }
            } else if 2 <= k && k <= 12 {
                match state.get_point(k as usize) {
                    Option::None => {
                        state.set_point(k as usize, ip);
                        proof {
                            assert(state.mach() == asx.m);
                        }
                        StepOutcome::Next(ip + 1)
                    },
                    Option::Some(p) => {
                        if p == ip {
                            StepOutcome::Next(ip + 1)
                        } else {
                            StepOutcome::Next(p)
                        }
                    },
                }
            } else {
                StepOutcome::Next(ip + 1)
            }
        },
    }
}

/// How a bounded run of the engine ended.
#[derive(PartialEq, Eq, Structural, Clone, Copy, Debug)]
pub enum RunStatus {
    /// The instruction pointer left the code vector: a normal end.
    Finished,
    /// A pop from stack 1 or 2 ended the program with this exit code.
    Halted(u8),
    /// The step budget ran out before the program ended.
    OutOfFuel,
}

/// Steps the machine from `start` until the instruction pointer leaves
/// the code vector, a pop from stack 1 or 2 halts the program, or the
/// step budget runs out.
#[verifier::rlimit(100)]
fn run_from<T: State>(io: &mut IoBuf, st: &mut T, start: usize, fuel: usize) -> (r: RunStatus)
    requires
        old(st).inv(),
        old(io).inv(),
    ensures
        final (st).inv(),
        final (io).inv(),
        final (st).code_view() == old(st).code_view(),
        r == RunStatus::Finished ==> exists|n: nat, ipf: int|
            n <= fuel && ipf >= old(st).code_view().len() && run_n(
                old(st).code_view(),
                start as int,
                old(st).mach(),
                old(io)@,
                n,
            ) == (RunOut::Running { ip: ipf, m: final (st).mach(), io: final (io)@ }),
        r matches RunStatus::Halted(c) ==> exists|n: nat|
            n <= fuel && run_n(old(st).code_view(), start as int, old(st).mach(), old(io)@, n) == (
            RunOut::Done { exit: c as int, io: final (io)@ }),
        r == RunStatus::OutOfFuel ==> (run_n(
            old(st).code_view(),
            start as int,
            old(st).mach(),
            old(io)@,
            fuel as nat,
        ) matches RunOut::Running { ip, m, io: iov } && m == final (st).mach() && iov == final (io)@
            && 0 <= ip < old(st).code_view().len()),
{
    let ghost cv = old(st).code_view();
    let ghost m0 = old(st).mach();
    let ghost io0 = old(io)@;
    let len = st.code_len();
    let mut ip: usize = start;
    let mut used: usize = 0;
    while ip < len
        invariant
            st.inv(),
            io.inv(),
            cv == old(st).code_view(),
            m0 == old(st).mach(),
            io0 == old(io)@,
            st.code_view() == cv,
            cv.len() == len as nat,
            used <= fuel,
            run_n(cv, start as int, m0, io0, used as nat) == (RunOut::Running {
                ip: ip as int,
                m: st.mach(),
                io: io@,
            }),
        decreases fuel - used,
    {
        if used == fuel {
            return RunStatus::OutOfFuel;
        }
        let ghost mpre = st.mach();
        let ghost iopre = io@;
        match step_once(io, st, ip) {
            StepOutcome::Next(p) => {
                proof {
                    assert(run_n(cv, start as int, m0, io0, used as nat) == (RunOut::Running {
                        ip: ip as int,
                        m: mpre,
                        io: iopre,
                    }));
                    let so = step_spec(cv, ip as int, mpre, iopre);
                    assert(st.mach() == so.m);
                    assert(io@ == so.io);
                    assert(so.next == StepNext::Goto(p as int));
                    assert(((used + 1) as nat - 1) as nat == used as nat);
                    assert(run_n(cv, start as int, m0, io0, (used + 1) as nat) == (RunOut::Running {
                        ip: p as int,
                        m: st.mach(),
                        io: io@,
                    }));
                }
                ip = p;
                used += 1;
            },
            StepOutcome::Halted(c) => {
                proof {
                    assert(run_n(cv, start as int, m0, io0, used as nat) == (RunOut::Running {
                        ip: ip as int,
                        m: mpre,
                        io: iopre,
                    }));
                    let so = step_spec(cv, ip as int, mpre, iopre);
                    assert(io@ == so.io);
                    assert(so.next == StepNext::Halt(c as int));
                    assert(((used + 1) as nat - 1) as nat == used as nat);
                    assert(run_n(cv, start as int, m0, io0, (used + 1) as nat) == (RunOut::Done {
                        exit: c as int,
                        io: io@,
                    }));
                    assert(used + 1 <= fuel);
                }
                return RunStatus::Halted(c);
            },
        }
    }
    RunStatus::Finished
}

/// Appends one instruction and runs from it until control leaves the
/// code vector, the program halts, or the step budget runs out.
pub fn execute<T: State>(io: &mut IoBuf, state: T, code: &T::CodeType, fuel: usize) -> (r: (
    T,
    RunStatus,
))
    requires
        state.inv(),
        old(io).inv(),
    ensures
        r.0.inv(),
        final (io).inv(),
        r.0.code_view() == state.code_view().push(code.instr()),
        r.1 == RunStatus::Finished ==> exists|n: nat, ipf: int|
            n <= fuel && ipf >= r.0.code_view().len() && run_n(
                r.0.code_view(),
                state.code_view().len() as int,
                state.mach(),
                old(io)@,
                n,
            ) == (RunOut::Running { ip: ipf, m: r.0.mach(), io: final (io)@ }),
        r.1 matches RunStatus::Halted(c) ==> exists|n: nat|
            n <= fuel && run_n(
                r.0.code_view(),
                state.code_view().len() as int,
                state.mach(),
                old(io)@,
                n,
            ) == (RunOut::Done { exit: c as int, io: final (io)@ }),
        r.1 == RunStatus::OutOfFuel ==> (run_n(
            r.0.code_view(),
            state.code_view().len() as int,
            state.mach(),
            old(io)@,
            fuel as nat,
        ) matches RunOut::Running { ip, m, io: iov } && m == r.0.mach() && iov == final (io)@ && 0
            <= ip < r.0.code_view().len()),
{
    let mut st = state;
    let start = st.code_len();
    let dupc = code.dup();
    st.push_code(dupc);
    let status = run_from(io, &mut st, start, fuel);
    (st, status)
}

/// Appends a whole program to the code vector and returns the index of
/// its first instruction.
pub fn load<T: State>(state: &mut T, codes: &Vec<T::CodeType>) -> (r: usize)
    requires
        old(state).inv(),
    ensures
        final (state).inv(),
        final (state).mach() == old(state).mach(),
        final (state).code_view() == old(state).code_view() + codes@.map_values(
            |c: T::CodeType| c.instr(),
        ),
        r as nat == old(state).code_view().len(),
{
    let start = state.code_len();
    let mut i: usize = 0;
    while i < codes.len()
        invariant
            i <= codes@.len(),
            state.inv(),
            state.mach() == old(state).mach(),
            state.code_view() == old(state).code_view() + codes@.take(i as int).map_values(
                |c: T::CodeType| c.instr(),
            ),
        decreases codes@.len() - i,
    {
        let dupc = codes[i].dup();
        state.push_code(dupc);
        proof {
            assert(codes@.take(i as int + 1).map_values(|c: T::CodeType| c.instr()) =~= codes@.take(
                i as int,
            ).map_values(|c: T::CodeType| c.instr()).push(codes@[i as int].instr()));
            assert(state.code_view() =~= old(state).code_view() + codes@.take(
                i as int + 1,
            ).map_values(|c: T::CodeType| c.instr()));
        }
        i += 1;
    }
    proof {
        assert(codes@.take(codes@.len() as int) =~= codes@);
        assert(state.code_view() =~= old(state).code_view() + codes@.map_values(
            |c: T::CodeType| c.instr(),
        ));
    }
    start
}

/// Loads a whole program and runs it from its first instruction under
/// the given step budget.
pub fn run_program<T: State>(io: &mut IoBuf, state: T, codes: &Vec<T::CodeType>, fuel: usize) -> (r:
    (T, RunStatus))
    requires
        state.inv(),
        old(io).inv(),
    ensures
        r.0.inv(),
        final (io).inv(),
        r.0.code_view() == state.code_view() + codes@.map_values(|c: T::CodeType| c.instr()),
        r.1 == RunStatus::Finished ==> exists|n: nat, ipf: int|
            n <= fuel && ipf >= r.0.code_view().len() && run_n(
                r.0.code_view(),
                state.code_view().len() as int,
                state.mach(),
                old(io)@,
                n,
            ) == (RunOut::Running { ip: ipf, m: r.0.mach(), io: final (io)@ }),
        r.1 matches RunStatus::Halted(c) ==> exists|n: nat|
            n <= fuel && run_n(
                r.0.code_view(),
                state.code_view().len() as int,
                state.mach(),
                old(io)@,
                n,
            ) == (RunOut::Done { exit: c as int, io: final (io)@ }),
        r.1 == RunStatus::OutOfFuel ==> (run_n(
            r.0.code_view(),
            state.code_view().len() as int,
            state.mach(),
            old(io)@,
            fuel as nat,
        ) matches RunOut::Running { ip, m, io: iov } && m == r.0.mach() && iov == final (io)@ && 0
            <= ip < r.0.code_view().len()),
{
    let mut st = state;
    let start = load(&mut st, codes);
    let status = run_from(io, &mut st, start, fuel);
    (st, status)
}

} // verus!
