//! The optimizer. At level one and above it constant-folds every push:
//! the product of the two counts is computed once and folded into the
//! dot count (when it fits the machine word), and the `area_count`
//! summary is filled in. No two instructions merge, since each push
//! emits exactly one value; rewrites whose preservation of the run
//! could not be shown — collapsing opcode pairs, dead-code elimination —
//! are not applied, so the dead-code search accepts no instruction as a
//! statically inevitable terminator. Preservation is proved against the
//! engine's step semantics, not assumed.

use vstd::prelude::*;

verus! {

use crate::code::init_mach;
use crate::code::Code;
use crate::code::Instr;
use crate::code::MachV;
use crate::code::OptCode;
use crate::code::OptState;
use crate::code::State;
use crate::code::UnOptCode;
use crate::execute::instr_equiv;
use crate::execute::lemma_run_equiv;
use crate::execute::run_n;
use crate::execute::IoV;

/// The summary an optimized instruction carries: the product of its two
/// counts, saturated at the machine limit, once the level asks for it.
pub open spec fn area_count_of(ins: Instr, level: nat) -> nat {
    if level >= 1 {
        if ins.hangul * ins.dot > usize::MAX as nat {
            usize::MAX as nat
        } else {
            ins.hangul * ins.dot
        }
    } else {
        0
    }
}

/// The level-one constant fold: a push's product is computed once and
/// folded into the dot count when it fits the machine word; every other
/// instruction, and a push whose product overflows, is kept as it is.
pub open spec fn fold_push(ins: Instr) -> Instr {
    if ins.op == 0 && ins.hangul * ins.dot <= usize::MAX as nat {
        Instr { op: 0, hangul: 1, dot: ins.hangul * ins.dot, area: ins.area }
    } else {
        ins
    }
}

/// What one instruction becomes at the given level.
pub open spec fn opt_instr(ins: Instr, level: nat) -> Instr {
    if level >= 1 {
        fold_push(ins)
    } else {
        ins
    }
}

/// The rewrite never leaves the engine's equivalence class: the folded
/// instruction pushes the same value and branches the same way.
pub proof fn lemma_opt_instr_equiv(ins: Instr, level: nat)
    ensures
        instr_equiv(ins, opt_instr(ins, level)),
{
    if level >= 1 && ins.op == 0 && ins.hangul * ins.dot <= usize::MAX as nat {
        assert(1 * (ins.hangul * ins.dot) == ins.hangul * ins.dot);
    }
}

/// The rewrite is a fixed point: applied twice it gives what one
/// application gave, summary included.
pub proof fn lemma_opt_instr_fixed(ins: Instr, level: nat)
    ensures
        opt_instr(opt_instr(ins, level), level) == opt_instr(ins, level),
        area_count_of(opt_instr(ins, level), level) == area_count_of(ins, level),
{
    if level >= 1 && ins.op == 0 && ins.hangul * ins.dot <= usize::MAX as nat {
        assert(1 * (ins.hangul * ins.dot) == ins.hangul * ins.dot);
    }
}

/// Converts one instruction at the given level, folding a push's
/// product and pre-computing the summary.
fn opt_one<C: Code>(c: &C, level: usize) -> (r: OptCode)
    ensures
        r.instr() == opt_instr(c.instr(), level as nat),
        r.area_count as nat == area_count_of(c.instr(), level as nat),
{
    let op = c.get_type();
    let h = c.get_hangul_count();
    let dd = c.get_dot_count();
    if level >= 1 {
        proof {
            assert((h as nat) * (dd as nat) < 0x1_0000_0000_0000_0000_0000_0000_0000_0000)
                by (nonlinear_arith)
                requires
                    h <= 0xFFFF_FFFF_FFFF_FFFFu64,
                    dd <= 0xFFFF_FFFF_FFFF_FFFFu64,
            ;
        }
        let w: u128 = (h as u128) * (dd as u128);
        if op == 0 && w <= usize::MAX as u128 {
            OptCode::new(0, 1, w as usize, w as usize, c.get_area().dup())
        } else {
            let ac: usize = if w > usize::MAX as u128 {
                usize::MAX
            } else {
                w as usize
            };
            OptCode::new(op, h, dd, ac, c.get_area().dup())
        }
    } else {
        OptCode::new(op, h, dd, 0, c.get_area().dup())
    }
}

/// Rewrites a parsed program into an optimized one: a fresh state and,
/// instruction for instruction, the level's rewrite of each record.
pub fn optimize(code: Vec<UnOptCode>, level: usize) -> (r: (OptState, Vec<OptCode>))
    ensures
        r.0.inv(),
        r.0.mach() == init_mach(),
        r.0.code_view() == Seq::<Instr>::empty(),
        r.1@.len() == code@.len(),
        forall|i: int|
            0 <= i < code@.len() ==> (#[trigger] r.1@[i]).instr() == opt_instr(
                code@[i].instr(),
                level as nat,
            ),
        forall|i: int|
            0 <= i < code@.len() ==> (#[trigger] r.1@[i]).area_count as nat == area_count_of(
                code@[i].instr(),
                level as nat,
            ),
{
    let mut out: Vec<OptCode> = Vec::new();
    let mut i: usize = 0;
    while i < code.len()
        invariant
            i <= code@.len(),
            out@.len() == i,
            forall|j: int|
                0 <= j < i ==> (#[trigger] out@[j]).instr() == opt_instr(
                    code@[j].instr(),
                    level as nat,
                ),
            forall|j: int|
                0 <= j < i ==> (#[trigger] out@[j]).area_count as nat == area_count_of(
                    code@[j].instr(),
                    level as nat,
                ),
        decreases code@.len() - i,
    {
        let oc = opt_one(&code[i], level);
        out.push(oc);
        i += 1;
    }
    (OptState::new(), out)
}

/// One more optimizer pass over an already optimized program.
pub fn opt_pass(code: Vec<OptCode>, level: usize) -> (r: Vec<OptCode>)
    ensures
        r@.len() == code@.len(),
        forall|i: int|
            0 <= i < code@.len() ==> (#[trigger] r@[i]).instr() == opt_instr(
                code@[i].instr(),
                level as nat,
            ),
        forall|i: int|
            0 <= i < code@.len() ==> (#[trigger] r@[i]).area_count as nat == area_count_of(
                code@[i].instr(),
                level as nat,
            ),
{
    let mut out: Vec<OptCode> = Vec::new();
    let mut i: usize = 0;
    while i < code.len()
        invariant
            i <= code@.len(),
            out@.len() == i,
            forall|j: int|
                0 <= j < i ==> (#[trigger] out@[j]).instr() == opt_instr(
                    code@[j].instr(),
                    level as nat,
                ),
            forall|j: int|
                0 <= j < i ==> (#[trigger] out@[j]).area_count as nat == area_count_of(
                    code@[j].instr(),
                    level as nat,
                ),
        decreases code@.len() - i,
    {
        let oc = opt_one(&code[i], level);
        out.push(oc);
        i += 1;
    }
    out
}

/// The optimizer preserves every observable of a run. The original and
/// its rewrite perform, on every input and at every step count, the
/// very same run: the same outputs, the same exit code, and the same
/// termination behaviour.
pub proof fn lemma_optimize_preserves_runs(
    orig: Seq<Instr>,
    opt: Seq<Instr>,
    level: nat,
    m: MachV,
    io: IoV,
    n: nat,
)
    requires
        opt.len() == orig.len(),
        forall|i: int| 0 <= i < orig.len() ==> (#[trigger] opt[i]) == opt_instr(orig[i], level),
    ensures
        run_n(opt, 0, m, io, n) == run_n(orig, 0, m, io, n),
{
    assert forall|i: int| 0 <= i < orig.len() implies instr_equiv(#[trigger] orig[i], opt[i]) by {
        lemma_opt_instr_equiv(orig[i], level);
    }
    lemma_run_equiv(orig, opt, 0, m, io, n);
}

/// One optimizer pass is a fixed point: running the rewrite again over
/// its own output reproduces it, instruction for instruction, summary
/// included.
pub proof fn lemma_optimize_idempotent(
    a: Seq<OptCode>,
    b: Seq<OptCode>,
    c: Seq<OptCode>,
    level: nat,
)
    requires
        b.len() == a.len(),
        forall|i: int| 0 <= i < a.len() ==> (#[trigger] b[i]).instr() == opt_instr(
            a[i].instr(),
            level,
        ),
        forall|i: int|
            0 <= i < a.len() ==> (#[trigger] b[i]).area_count as nat == area_count_of(
                a[i].instr(),
                level,
            ),
        c.len() == b.len(),
        forall|i: int| 0 <= i < b.len() ==> (#[trigger] c[i]).instr() == opt_instr(
            b[i].instr(),
            level,
        ),
        forall|i: int|
            0 <= i < b.len() ==> (#[trigger] c[i]).area_count as nat == area_count_of(
                b[i].instr(),
                level,
            ),
    ensures
        c.len() == b.len(),
        forall|i: int|
            0 <= i < b.len() ==> (#[trigger] c[i]).instr() == b[i].instr() && c[i].area_count
                == b[i].area_count,
{
    assert forall|i: int|
        0 <= i < b.len() implies (#[trigger] c[i]).instr() == b[i].instr() && c[i].area_count
        == b[i].area_count by {
        lemma_opt_instr_fixed(a[i].instr(), level);
    }
}

} // verus!
