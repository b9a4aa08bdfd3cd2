//! Instructions and their branching areas. An area is a binary tree whose
//! two operator kinds test the current stack top and whose twelve leaf
//! kinds name jump targets; `Nil` takes no branch.

use vstd::prelude::*;

verus! {

use crate::big_number::bytes_chars;
use crate::big_number::int_bytes_of;
use crate::big_number::Num;
use crate::number::Number;
use crate::number::NumberV;
use vstd::string::StringExecFns;

/// The area tree attached to an instruction.
///
/// `type_` 0 is the operator testing for an undefined top, `type_` 1 the
/// operator testing for a negative top; kinds 2 through 13 are leaves
/// naming the jump target equal to their kind.
pub enum Area {
    Val { type_: u8, left: Box<Area>, right: Box<Area> },
    Nil,
}

/// What evaluating an area against a stack top decides.
pub enum AreaChoice {
    /// No branch: the instruction pointer advances by one.
    Stay,
    /// Jump to the label with this id.
    Jump(u8),
}

/// Every operator kind is 0 or 1 recursing into well-formed children;
/// every leaf kind lies in 2 through 13.
pub open spec fn area_wf(a: Area) -> bool
    decreases a,
{
    match a {
        Area::Nil => true,
        Area::Val { type_, left, right } => {
            if type_ <= 1 {
                area_wf(*left) && area_wf(*right)
            } else {
                2 <= type_ <= 13
            }
        },
    }
}

/// Area evaluation: the undefined test takes the right branch on an
/// undefined top, the sign test takes the right branch on a negative
/// top; a reached leaf names the jump target, `Nil` takes no branch.
pub open spec fn area_eval(a: Area, undef: bool, neg: bool) -> AreaChoice
    decreases a,
{
    match a {
        Area::Nil => AreaChoice::Stay,
        Area::Val { type_, left, right } => {
            if type_ == 0 {
                if undef {
                    area_eval(*right, undef, neg)
                } else {
                    area_eval(*left, undef, neg)
                }
            } else if type_ == 1 {
                if neg {
                    area_eval(*right, undef, neg)
                } else {
                    area_eval(*left, undef, neg)
                }
            } else {
                AreaChoice::Jump(type_)
            }
        },
    }
}

impl Area {
    /// A leaf area of the given kind, with empty children.
    pub fn new(type_: u8) -> (r: Area)
        ensures
            r == (Area::Val {
                type_,
                left: Box::new(Area::Nil),
                right: Box::new(Area::Nil),
            }),
            2 <= type_ <= 13 ==> area_wf(r),
    {
        Area::Val { type_, left: Box::new(Area::Nil), right: Box::new(Area::Nil) }
    }

    /// Evaluates this area against the given top-of-stack tests.
    pub fn eval(&self, undef: bool, neg: bool) -> (r: AreaChoice)
        ensures
            r == area_eval(*self, undef, neg),
        decreases *self,
    {
        match self {
            Area::Nil => AreaChoice::Stay,
            Area::Val { type_, left, right } => {
                if *type_ == 0 {
                    if undef {
                        right.eval(undef, neg)
                    } else {
                        left.eval(undef, neg)
                    }
                } else if *type_ == 1 {
                    if neg {
                        right.eval(undef, neg)
                    } else {
                        left.eval(undef, neg)
                    }
                } else {
                    AreaChoice::Jump(*type_)
                }
            },
        }
    }

    /// A structural copy.
    pub fn dup(&self) -> (r: Area)
        ensures
            r == *self,
        decreases *self,
    {
        match self {
            Area::Nil => Area::Nil,
            Area::Val { type_, left, right } => Area::Val {
                type_: *type_,
                left: Box::new(left.dup()),
                right: Box::new(right.dup()),
            },
        }
    }
}

/// Area evaluation is a function of the area and the two top-of-stack
/// tests alone: equal inputs decide equal branches.
pub proof fn lemma_area_eval_deterministic(a: Area, b: Area, undef: bool, neg: bool)
    requires
        a == b,
    ensures
        area_eval(a, undef, neg) == area_eval(b, undef, neg),
{
}

/// The character printing one area kind: the two operators, then the
/// twelve heart leaves in kind order.
pub open spec fn kind_char(k: u8) -> char {
    if k == 0 {
        '?'
    } else if k == 1 {
        '!'
    } else if k == 2 {
        '♥'
    } else if k == 3 {
        '❤'
    } else if k == 4 {
        '💕'
    } else if k == 5 {
        '💖'
    } else if k == 6 {
        '💗'
    } else if k == 7 {
        '💘'
    } else if k == 8 {
        '💙'
    } else if k == 9 {
        '💚'
    } else if k == 10 {
        '💛'
    } else if k == 11 {
        '💜'
    } else if k == 12 {
        '💝'
    } else if k == 13 {
        '♡'
    } else {
        '_'
    }
}

/// The compact rendering of an area: each node's character, children
/// following an operator without brackets, `Nil` as an underscore.
pub open spec fn area_debug_chars(a: Area) -> Seq<char>
    decreases a,
{
    match a {
        Area::Nil => seq!['_'],
        Area::Val { type_, left, right } => {
            if type_ <= 1 {
                seq![kind_char(type_)] + area_debug_chars(*left) + area_debug_chars(*right)
            } else {
                seq![kind_char(type_)]
            }
        },
    }
}

/// The bracketed rendering of an area: an operator between its two
/// bracketed children, a leaf as its character, `Nil` as an underscore.
pub open spec fn area_display_chars(a: Area) -> Seq<char>
    decreases a,
{
    match a {
        Area::Nil => seq!['_'],
        Area::Val { type_, left, right } => {
            if type_ <= 1 {
                seq!['['] + area_display_chars(*left) + seq![']'] + seq![kind_char(type_)] + seq![
                    '[',
                ] + area_display_chars(*right) + seq![']']
            } else {
                seq![kind_char(type_)]
            }
        },
    }
}

/// The command syllable of one opcode.
pub open spec fn command_char(k: u8) -> char {
    if k == 0 {
        '형'
    } else if k == 1 {
        '항'
    } else if k == 2 {
        '핫'
    } else if k == 3 {
        '흣'
    } else if k == 4 {
        '흡'
    } else if k == 5 {
        '흑'
    } else {
        '?'
    }
}

/// Appends the command syllable of one opcode.
fn push_command_char(s: &mut String, k: u8)
    ensures
        final (s)@ == old(s)@ + seq![command_char(k)],
{
    let t: &str = if k == 0 {
        "형"
    } else if k == 1 {
        "항"
    } else if k == 2 {
        "핫"
    } else if k == 3 {
        "흣"
    } else if k == 4 {
        "흡"
    } else if k == 5 {
        "흑"
    } else {
        "?"
    };
    proof {
        reveal_strlit("형");
        reveal_strlit("항");
        reveal_strlit("핫");
        reveal_strlit("흣");
        reveal_strlit("흡");
        reveal_strlit("흑");
        reveal_strlit("?");
        assert(t@ =~= seq![command_char(k)]);
    }
    s.append(t);
}

/// Appends the character of one area kind.
fn push_kind_char(s: &mut String, k: u8)
    ensures
        final (s)@ == old(s)@ + seq![kind_char(k)],
{
    let t: &str = if k == 0 {
        "?"
    } else if k == 1 {
        "!"
    } else if k == 2 {
        "♥"
    } else if k == 3 {
        "❤"
    } else if k == 4 {
        "💕"
    } else if k == 5 {
        "💖"
    } else if k == 6 {
        "💗"
    } else if k == 7 {
        "💘"
    } else if k == 8 {
        "💙"
    } else if k == 9 {
        "💚"
    } else if k == 10 {
        "💛"
    } else if k == 11 {
        "💜"
    } else if k == 12 {
        "💝"
    } else if k == 13 {
        "♡"
    } else {
        "_"
    };
    proof {
        reveal_strlit("?");
        reveal_strlit("!");
        reveal_strlit("♥");
        reveal_strlit("❤");
        reveal_strlit("💕");
        reveal_strlit("💖");
        reveal_strlit("💗");
        reveal_strlit("💘");
        reveal_strlit("💙");
        reveal_strlit("💚");
        reveal_strlit("💛");
        reveal_strlit("💜");
        reveal_strlit("💝");
        reveal_strlit("♡");
        reveal_strlit("_");
        assert(t@ =~= seq![kind_char(k)]);
    }
    s.append(t);
}

/// Appends the compact rendering of `area`.
pub fn area_to_string_debug(s: &mut String, area: &Area)
    ensures
        final (s)@ == old(s)@ + area_debug_chars(*area),
    decreases *area,
{
    match area {
        Area::Val { type_, left, right } => {
            push_kind_char(s, *type_);
            if *type_ <= 1 {
                area_to_string_debug(s, left);
                area_to_string_debug(s, right);
                proof {
                    assert(s@ =~= old(s)@ + area_debug_chars(*area));
                }
            }
        },
        Area::Nil => {
            proof {
                reveal_strlit("_");
                assert("_"@ =~= seq!['_']);
            }
            s.append("_");
        },
    }
}

/// Appends the bracketed rendering of `area`.
pub fn area_to_string_display(s: &mut String, area: &Area)
    ensures
        final (s)@ == old(s)@ + area_display_chars(*area),
    decreases *area,
{
    proof {
        reveal_strlit("[");
        reveal_strlit("]");
        reveal_strlit("_");
        assert("["@ =~= seq!['[']);
        assert("]"@ =~= seq![']']);
        assert("_"@ =~= seq!['_']);
    }
    match area {
        Area::Val { type_, left, right } => {
            if *type_ <= 1 {
                s.append("[");
                area_to_string_display(s, left);
                s.append("]");
                push_kind_char(s, *type_);
                s.append("[");
                area_to_string_display(s, right);
                s.append("]");
                proof {
                    assert(s@ =~= old(s)@ + area_display_chars(*area));
                }
            } else {
                push_kind_char(s, *type_);
            }
        },
        Area::Nil => {
            s.append("_");
        },
    }
}

/// The ghost record every instruction form presents to the engine.
pub struct Instr {
    pub op: int,
    pub hangul: nat,
    pub dot: nat,
    pub area: Area,
}

/// Common access to an instruction's fields, whichever form holds them.
pub trait Code: Sized {
    /// The instruction this value denotes.
    spec fn instr(&self) -> Instr;

    /// Well-formed: opcode in range, a positive hangul count, a
    /// well-formed area.
    open spec fn code_wf(&self) -> bool {
        &&& 0 <= self.instr().op <= 5
        &&& self.instr().hangul >= 1
        &&& area_wf(self.instr().area)
    }

    fn get_type(&self) -> (r: u8)
        ensures
            r as int == self.instr().op,
    ;

    fn get_hangul_count(&self) -> (r: usize)
        ensures
            r as nat == self.instr().hangul,
    ;

    fn get_dot_count(&self) -> (r: usize)
        ensures
            r as nat == self.instr().dot,
    ;

    fn get_area(&self) -> (r: &Area)
        ensures
            *r == self.instr().area,
    ;

    /// The optimizer's pre-computed summary; not a semantic value.
    fn get_area_count(&self) -> usize;

    fn dup(&self) -> (r: Self)
        ensures
            r.instr() == self.instr(),
            r.code_wf() == self.code_wf(),
    ;
}

/// An optimized instruction: the fields plus a pre-computed summary.
pub struct OptCode {
    pub type_: u8,
    pub hangul_count: usize,
    pub dot_count: usize,
    pub area_count: usize,
    pub area: Area,
}

impl OptCode {
    /// Bundles the fields of one optimized instruction.
    pub fn new(type_: u8, hangul_count: usize, dot_count: usize, area_count: usize, area: Area) -> (r:
        OptCode)
        ensures
            r.instr() == (Instr {
                op: type_ as int,
                hangul: hangul_count as nat,
                dot: dot_count as nat,
                area,
            }),
            r.area_count == area_count,
    {
        OptCode { type_, hangul_count, dot_count, area_count, area }
    }
}

impl Code for OptCode {
    open spec fn instr(&self) -> Instr {
        Instr {
            op: self.type_ as int,
            hangul: self.hangul_count as nat,
            dot: self.dot_count as nat,
            area: self.area,
        }
    }

    fn get_type(&self) -> u8 {
        self.type_
    }

    fn get_hangul_count(&self) -> usize {
        self.hangul_count
    }

    fn get_dot_count(&self) -> usize {
        self.dot_count
    }

    fn get_area(&self) -> &Area {
        &self.area
    }

    fn get_area_count(&self) -> (r: usize)
        ensures
            r == self.area_count,
    {
        self.area_count
    }

    fn dup(&self) -> OptCode {
        OptCode {
            type_: self.type_,
            hangul_count: self.hangul_count,
            dot_count: self.dot_count,
            area_count: self.area_count,
            area: self.area.dup(),
        }
    }
}

/// A parsed, unoptimized instruction: the fields plus a source location.
pub struct UnOptCode {
    pub type_: u8,
    pub hangul_count: usize,
    pub dot_count: usize,
    pub loc: (usize, usize),
    pub area: Area,
}

impl UnOptCode {
    /// Bundles the fields of one parsed instruction.
    pub fn new(type_: u8, hangul_count: usize, dot_count: usize, loc: (usize, usize), area: Area) -> (r:
        UnOptCode)
        ensures
            r.instr() == (Instr {
                op: type_ as int,
                hangul: hangul_count as nat,
                dot: dot_count as nat,
                area,
            }),
            r.loc == loc,
    {
        UnOptCode { type_, hangul_count, dot_count, loc, area }
    }

    /// The printed form of this instruction: its source position, its
    /// command syllable with the two counts, and its area in brackets.
    pub open spec fn display_chars(&self) -> Seq<char> {
        bytes_chars(int_bytes_of(self.loc.0 as int, 10)) + seq![':'] + bytes_chars(
            int_bytes_of(self.loc.1 as int, 10),
        ) + seq![' '] + seq![command_char(self.type_)] + seq!['_'] + bytes_chars(
            int_bytes_of(self.hangul_count as int, 10),
        ) + seq!['_'] + bytes_chars(int_bytes_of(self.dot_count as int, 10)) + seq![' ', ':', ' ']
            + area_display_chars(self.area)
    }

    /// Renders this instruction as `line:col command_h_d : area`.
    pub fn to_string(&self) -> (r: String)
        ensures
            r@ == self.display_chars(),
    {
        let mut s = String::new();
        let l0 = Num::from_u64(self.loc.0 as u64);
        let t0 = l0.to_string();
        s.append(t0.as_str());
        proof {
            reveal_strlit(":");
            reveal_strlit(" ");
            reveal_strlit("_");
            reveal_strlit(" : ");
            assert(":"@ =~= seq![':']);
            assert(" "@ =~= seq![' ']);
            assert("_"@ =~= seq!['_']);
            assert(" : "@ =~= seq![' ', ':', ' ']);
        }
        s.append(":");
        let l1 = Num::from_u64(self.loc.1 as u64);
        let t1 = l1.to_string();
        s.append(t1.as_str());
        s.append(" ");
        push_command_char(&mut s, self.type_);
        s.append("_");
        let hc = Num::from_u64(self.hangul_count as u64);
        let th = hc.to_string();
        s.append(th.as_str());
        s.append("_");
        let dc = Num::from_u64(self.dot_count as u64);
        let td = dc.to_string();
        s.append(td.as_str());
        s.append(" : ");
        area_to_string_display(&mut s, &self.area);
        proof {
            assert(s@ =~= self.display_chars());
        }
        s
    }

    /// The source position this instruction was parsed from.
    pub fn get_location(&self) -> (r: (usize, usize))
        ensures
            r == self.loc,
    {
        self.loc
    }
}

impl Code for UnOptCode {
    open spec fn instr(&self) -> Instr {
        Instr {
            op: self.type_ as int,
            hangul: self.hangul_count as nat,
            dot: self.dot_count as nat,
            area: self.area,
        }
    }

    fn get_type(&self) -> u8 {
        self.type_
    }

    fn get_hangul_count(&self) -> usize {
        self.hangul_count
    }

    fn get_dot_count(&self) -> usize {
        self.dot_count
    }

    fn get_area(&self) -> &Area {
        &self.area
    }

    /// The product of the two counts, saturated at the machine limit.
    fn get_area_count(&self) -> (r: usize)
        ensures
            r as nat == if self.instr().hangul * self.instr().dot > usize::MAX as nat {
                usize::MAX as nat
            } else {
                self.instr().hangul * self.instr().dot
            },
    {
        proof {
            assert((self.hangul_count as nat) * (self.dot_count as nat)
                < 0x1_0000_0000_0000_0000_0000_0000_0000_0000) by (nonlinear_arith)
                requires
                    self.hangul_count <= 0xFFFF_FFFF_FFFF_FFFFu64,
                    self.dot_count <= 0xFFFF_FFFF_FFFF_FFFFu64,
            ;
        }
        let w: u128 = (self.hangul_count as u128) * (self.dot_count as u128);
        if w > usize::MAX as u128 {
            usize::MAX
        } else {
            w as usize
        }
    }

    fn dup(&self) -> UnOptCode {
        UnOptCode {
            type_: self.type_,
            hangul_count: self.hangul_count,
            dot_count: self.dot_count,
            loc: self.loc,
            area: self.area.dup(),
        }
    }
}

/// The ghost machine: the family of stacks, the current stack index,
/// and the table of registered jump points.
#[verifier::ext_equal]
pub struct MachV {
    pub stacks: Seq<Seq<NumberV>>,
    pub cur: int,
    pub points: Seq<Option<int>>,
}

/// The stored stacks padded with empty ones up to length `n`.
pub open spec fn grow_stacks(s: Seq<Seq<NumberV>>, n: int) -> Seq<Seq<NumberV>> {
    if s.len() >= n {
        s
    } else {
        Seq::new(
            n as nat,
            |j: int|
                if j < s.len() {
                    s[j]
                } else {
                    Seq::empty()
                },
        )
    }
}

/// The stack at an index; one never touched is empty.
pub open spec fn stack_at(m: MachV, i: int) -> Seq<NumberV> {
    if 0 <= i < m.stacks.len() {
        m.stacks[i]
    } else {
        Seq::empty()
    }
}

/// The machine with the stack at `i` replaced by `s`.
pub open spec fn mach_with_stack(m: MachV, i: int, s: Seq<NumberV>) -> MachV {
    MachV { stacks: grow_stacks(m.stacks, i + 1).update(i, s), cur: m.cur, points: m.points }
}

/// The machine after a raw push onto stack `i`.
pub open spec fn mach_push(m: MachV, i: int, v: NumberV) -> MachV {
    mach_with_stack(m, i, stack_at(m, i).push(v))
}

/// The machine and value after a raw pop from stack `i`;
/// an empty stack yields the undefined value and no change.
pub open spec fn mach_pop(m: MachV, i: int) -> (MachV, NumberV) {
    let s = stack_at(m, i);
    if s.len() == 0 {
        (m, NumberV::Nan)
    } else {
        (mach_with_stack(m, i, s.drop_last()), s.last())
    }
}

/// The machine a fresh state presents: no stacks, current index 3,
/// no registered points.
pub open spec fn init_mach() -> MachV {
    MachV { stacks: Seq::empty(), cur: 3, points: Seq::new(14, |i: int| Option::None) }
}

/// The mutable store the engine drives: stacks, a code vector, a points
/// table and the current stack index, behind a ghost machine view.
pub trait State: Sized {
    type CodeType: Code;

    /// The ghost machine this state holds.
    spec fn mach(&self) -> MachV;

    /// The instructions loaded so far.
    spec fn code_view(&self) -> Seq<Instr>;

    /// The representation invariant.
    spec fn inv(&self) -> bool;

    proof fn inv_facts(&self)
        requires
            self.inv(),
        ensures
            self.mach().points.len() == 14,
            self.mach().cur >= 0,
    ;

    /// Raw push onto the stack at `idx`, growing the family as needed.
    fn push_stack(&mut self, idx: usize, num: Number)
        requires
            old(self).inv(),
            num.wf(),
        ensures
            final (self).inv(),
            final (self).mach() == mach_push(old(self).mach(), idx as int, num@),
            final (self).code_view() == old(self).code_view(),
    ;

    /// Raw pop from the stack at `idx`; an empty one yields NaN.
    fn pop_stack(&mut self, idx: usize) -> (r: Number)
        requires
            old(self).inv(),
        ensures
            final (self).inv(),
            r.wf(),
            final (self).mach() == mach_pop(old(self).mach(), idx as int).0,
            r@ == mach_pop(old(self).mach(), idx as int).1,
            final (self).code_view() == old(self).code_view(),
    ;

    /// A copy of the top of the stack at `idx`, if it has one.
    fn peek_stack(&self, idx: usize) -> (r: Option<Number>)
        requires
            self.inv(),
        ensures
            match r {
                Option::None => stack_at(self.mach(), idx as int).len() == 0,
                Option::Some(v) => stack_at(self.mach(), idx as int).len() > 0 && v@ == stack_at(
                    self.mach(),
                    idx as int,
                ).last() && v.wf(),
            },
    ;

    /// The current stack index.
    fn current_stack(&self) -> (r: usize)
        requires
            self.inv(),
        ensures
            r as int == self.mach().cur,
    ;

    /// Makes `idx` the current stack index.
    fn set_current_stack(&mut self, idx: usize)
        requires
            old(self).inv(),
        ensures
            final (self).inv(),
            final (self).mach() == (MachV { cur: idx as int, ..old(self).mach() }),
            final (self).code_view() == old(self).code_view(),
    ;

    /// The registered location of point `id`, if any.
    fn get_point(&self, id: usize) -> (r: Option<usize>)
        requires
            self.inv(),
            id < 14,
        ensures
            match r {
                Option::None => self.mach().points[id as int] is None,
                Option::Some(p) => self.mach().points[id as int] == Option::Some(p as int),
            },
    ;

    /// Registers point `id` at location `loc`.
    fn set_point(&mut self, id: usize, loc: usize)
        requires
            old(self).inv(),
            id < 14,
        ensures
            final (self).inv(),
            final (self).mach() == (MachV {
                points: old(self).mach().points.update(id as int, Option::Some(loc as int)),
                ..old(self).mach()
            }),
            final (self).code_view() == old(self).code_view(),
    ;

    /// Appends one instruction to the code vector.
    fn push_code(&mut self, code: Self::CodeType)
        requires
            old(self).inv(),
        ensures
            final (self).inv(),
            final (self).code_view() == old(self).code_view().push(code.instr()),
            final (self).mach() == old(self).mach(),
    ;

    /// The instruction at `loc`.
    fn get_code(&self, loc: usize) -> (r: &Self::CodeType)
        requires
            self.inv(),
            loc < self.code_view().len(),
        ensures
            r.instr() == self.code_view()[loc as int],
    ;

    /// How many instructions are loaded.
    fn code_len(&self) -> (r: usize)
        requires
            self.inv(),
        ensures
            r as nat == self.code_view().len(),
    ;
}

/// The store behind both state forms: the stacks, the loaded code, the
/// points table, and the current stack index.
pub struct Machine<C> {
    pub stack: Vec<Vec<Number>>,
    pub code: Vec<C>,
    pub point: Vec<Option<usize>>,
    pub cur: usize,
}

/// The state an optimized program runs in.
pub type OptState = Machine<OptCode>;

/// The state an unoptimized program runs in.
pub type UnOptState = Machine<UnOptCode>;

/// An option over a machine index, as the ghost machine stores it.
pub open spec fn opt_view(o: Option<usize>) -> Option<int> {
    match o {
        Option::Some(u) => Option::Some(u as int),
        Option::None => Option::None,
    }
}

/// A points table of fourteen empty slots.
fn empty_points() -> (r: Vec<Option<usize>>)
    ensures
        r@.len() == 14,
        forall|k: int| 0 <= k < 14 ==> r@[k] is None,
{
    let mut point: Vec<Option<usize>> = Vec::new();
    let mut i: usize = 0;
    while i < 14
        invariant
            i <= 14,
            point@.len() == i,
            forall|k: int| 0 <= k < i ==> point@[k] is None,
        decreases 14 - i,
    {
        point.push(Option::None);
        i += 1;
    }
    point
}

impl OptState {
    /// A fresh state: no stacks, no code, current stack 3.
    pub fn new() -> (r: OptState)
        ensures
            r.inv(),
            r.mach() == init_mach(),
            r.code_view() == Seq::<Instr>::empty(),
    {
        let r = OptState { stack: Vec::new(), code: Vec::new(), point: empty_points(), cur: 3 };
        proof {
            assert(r.mach().points =~= init_mach().points);
            assert(r.mach().stacks =~= init_mach().stacks);
            assert(r.mach() =~~= init_mach());
            assert(r.code_view() =~= Seq::<Instr>::empty());
        }
        r
    }
}

impl UnOptState {
    /// A fresh state: no stacks, no code, current stack 3.
    pub fn new() -> (r: UnOptState)
        ensures
            r.inv(),
            r.mach() == init_mach(),
            r.code_view() == Seq::<Instr>::empty(),
    {
        let r = UnOptState { stack: Vec::new(), code: Vec::new(), point: empty_points(), cur: 3 };
        proof {
            assert(r.mach().points =~= init_mach().points);
            assert(r.mach().stacks =~= init_mach().stacks);
            assert(r.mach() =~~= init_mach());
            assert(r.code_view() =~= Seq::<Instr>::empty());
        }
        r
    }
}

impl<C: Code> State for Machine<C> {
    type CodeType = C;

    open spec fn mach(&self) -> MachV {
        MachV {
            stacks: self.stack@.map_values(|v: Vec<Number>| v@.map_values(|x: Number| x@)),
            cur: self.cur as int,
            points: self.point@.map_values(|o: Option<usize>| opt_view(o)),
        }
    }

    open spec fn code_view(&self) -> Seq<Instr> {
        self.code@.map_values(|c: C| c.instr())
    }

    open spec fn inv(&self) -> bool {
        &&& self.point@.len() == 14
        &&& forall|i: int, j: int|
            0 <= i < self.stack@.len() && 0 <= j < self.stack@[i]@.len() ==> (
            #[trigger] self.stack@[i]@[j]).wf()
    }

    proof fn inv_facts(&self) {
    }

    fn push_stack(&mut self, idx: usize, num: Number) {
        while self.stack.len() <= idx
            invariant
                self.cur == old(self).cur,
                self.point@ == old(self).point@,
                self.code@ == old(self).code@,
                old(self).inv(),
                old(self).stack@.len() <= self.stack@.len(),
                self.stack@.len() <= idx + 1 || self.stack@.len() == old(self).stack@.len(),
                forall|k: int|
                    0 <= k < old(self).stack@.len() ==> self.stack@[k] == old(self).stack@[k],
                forall|k: int|
                    old(self).stack@.len() <= k < self.stack@.len() ==> (#[trigger] self.stack@[k])@
                        =~= Seq::<Number>::empty(),
            decreases idx + 1 - self.stack@.len(),
        {
            self.stack.push(Vec::new());
        }
        let ghost mid = *self;
        self.stack[idx].push(num);
        proof {
            let gm = mach_push(old(self).mach(), idx as int, num@);
            assert(self.stack@ == mid.stack@.update(idx as int, self.stack@[idx as int]));
            assert forall|k: int| 0 <= k < self.mach().stacks.len() implies self.mach().stacks[k]
                =~= gm.stacks[k] by {
                let olds = old(self).mach().stacks;
                assert(gm.stacks == grow_stacks(olds, idx as int + 1).update(
                    idx as int,
                    stack_at(old(self).mach(), idx as int).push(num@),
                ));
                if k == idx {
                    assert(self.stack@[k]@ == mid.stack@[k]@.push(num));
                    if idx < old(self).stack@.len() {
                        assert(mid.stack@[k] == old(self).stack@[k]);
                    } else {
                        assert(mid.stack@[k]@ =~= Seq::<Number>::empty());
                    }
                } else {
                    assert(self.stack@[k] == mid.stack@[k]);
                    if k < old(self).stack@.len() {
                        assert(mid.stack@[k] == old(self).stack@[k]);
                    } else {
                        assert(mid.stack@[k]@ =~= Seq::<Number>::empty());
                    }
                }
            }
            assert(self.mach().stacks =~= gm.stacks);
            assert(self.mach().points =~= gm.points);
            assert(self.mach() =~~= gm);
            assert(self.code_view() =~= old(self).code_view());
        }
    }

    fn pop_stack(&mut self, idx: usize) -> (r: Number) {
        if idx < self.stack.len() {
            let ghost mid = *self;
            let row = &mut self.stack[idx];
            let popped = row.pop();
            match popped {
                Option::Some(x) => {
                    proof {
                        let gm = mach_pop(old(self).mach(), idx as int).0;
                        assert(stack_at(old(self).mach(), idx as int) == old(self).stack@[
                        idx as int]@.map_values(|y: Number| y@));
                        assert(self.stack@ == mid.stack@.update(idx as int, self.stack@[idx as int]));
                        assert(self.stack@[idx as int]@ == mid.stack@[idx as int]@.drop_last());
                        assert forall|k: int|
                            0 <= k < self.mach().stacks.len() implies self.mach().stacks[k]
                            =~= gm.stacks[k] by {
                            if k == idx {
                                assert(self.stack@[k]@.map_values(|y: Number| y@) =~= old(
                                    self,
                                ).stack@[k]@.map_values(|y: Number| y@).drop_last());
                            } else {
                                assert(self.stack@[k] == old(self).stack@[k]);
                            }
                        }
                        assert(self.mach().stacks =~= gm.stacks);
                        assert(self.mach() =~~= gm);
                        assert(x@ == mach_pop(old(self).mach(), idx as int).1);
                        assert(self.code_view() =~= old(self).code_view());
                        assert(forall|i: int, j: int|
                            0 <= i < self.stack@.len() && 0 <= j < self.stack@[i]@.len() ==> (
                            #[trigger] self.stack@[i]@[j]).wf());
                    }
                    x
                },
                Option::None => {
                    proof {
                        assert(self.stack@ == mid.stack@.update(idx as int, self.stack@[idx as int]));
                        assert(self.stack@[idx as int]@ =~= mid.stack@[idx as int]@);
                        assert(stack_at(old(self).mach(), idx as int).len() == 0);
                        assert forall|k: int|
                            0 <= k < self.mach().stacks.len() implies self.mach().stacks[k] =~= old(
                            self,
                        ).mach().stacks[k] by {
                            if k != idx {
                                assert(self.stack@[k] == old(self).stack@[k]);
                            }
                        }
                        assert(self.mach().stacks =~= old(self).mach().stacks);
                        assert(self.mach() =~~= old(self).mach());
                        assert(self.code_view() =~= old(self).code_view());
                        assert(forall|i: int, j: int|
                            0 <= i < self.stack@.len() && 0 <= j < self.stack@[i]@.len() ==> (
                            #[trigger] self.stack@[i]@[j]).wf());
                    }
                    Number::nan()
                },
            }
        } else {
            proof {
                assert(stack_at(self.mach(), idx as int) =~= Seq::<NumberV>::empty());
            }
            Number::nan()
        }
    }

    fn peek_stack(&self, idx: usize) -> (r: Option<Number>) {
        if idx < self.stack.len() {
            let n = self.stack[idx].len();
            if n > 0 {
                let v = self.stack[idx][n - 1].clone();
                proof {
                    assert(stack_at(self.mach(), idx as int) == self.stack@[idx as int]@.map_values(
                        |x: Number| x@,
                    ));
                }
                Option::Some(v)
            } else {
                proof {
                    assert(stack_at(self.mach(), idx as int).len() == 0);
                }
                Option::None
            }
        } else {
            proof {
                assert(stack_at(self.mach(), idx as int) =~= Seq::<NumberV>::empty());
            }
            Option::None
        }
    }

    fn current_stack(&self) -> usize {
        self.cur
    }

    fn set_current_stack(&mut self, idx: usize) {
        self.cur = idx;
        proof {
            assert(self.mach() =~~= (MachV { cur: idx as int, ..old(self).mach() }));
            assert(self.code_view() =~= old(self).code_view());
        }
    }

    fn get_point(&self, id: usize) -> (r: Option<usize>) {
        self.point[id]
    }

    fn set_point(&mut self, id: usize, loc: usize) {
        let slot = &mut self.point[id];
        *slot = Option::Some(loc);
        proof {
            assert(self.mach().points =~= old(self).mach().points.update(
                id as int,
                Option::Some(loc as int),
            ));
            assert(self.mach() =~~= (MachV {
                points: old(self).mach().points.update(id as int, Option::Some(loc as int)),
                ..old(self).mach()
            }));
            assert(self.code_view() =~= old(self).code_view());
        }
    }

    fn push_code(&mut self, code: C) {
        self.code.push(code);
        proof {
            assert(self.code_view() =~= old(self).code_view().push(code.instr()));
            assert(self.mach() =~~= old(self).mach());
        }
    }

    fn get_code(&self, loc: usize) -> (r: &C) {
        &self.code[loc]
    }

    fn code_len(&self) -> usize {
        self.code.len()
    }
}

} // verus!
