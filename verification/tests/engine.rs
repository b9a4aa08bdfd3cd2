use hyeong::code::{Area, AreaChoice, State, UnOptCode, UnOptState};
use hyeong::execute::{run_program, IoBuf, RunStatus};
use hyeong::optimize::{opt_pass, optimize};

fn instr(op: u8, h: usize, d: usize, area: Area) -> UnOptCode {
    UnOptCode::new(op, h, d, (0, 0), area)
}

fn run_plain(codes: &Vec<UnOptCode>, input: &str) -> (Vec<u8>, Vec<u8>, RunStatus) {
    let io_in: Vec<char> = input.chars().collect();
    let mut io = IoBuf::new(io_in);
    let state = UnOptState::new();
    let (_st, status) = run_program(&mut io, state, codes, 100000);
    (io.out, io.err, status)
}

#[test]
fn push_then_negsum_prints_minus_one() {
    // Push 1 onto stack 3, then NegSum one value to stack 1.
    let codes = vec![instr(0, 1, 1, Area::Nil), instr(3, 1, 1, Area::Nil)];
    let (out, err, status) = run_plain(&codes, "");
    assert!(status == RunStatus::Finished);
    assert!(out == b"-1".to_vec());
    assert!(err.is_empty());
}

#[test]
fn single_push_writes_nothing() {
    let codes = vec![instr(0, 1, 2, Area::Nil)];
    let (out, err, status) = run_plain(&codes, "");
    assert!(status == RunStatus::Finished);
    assert!(out.is_empty());
    assert!(err.is_empty());
}

#[test]
fn add_to_stack_two_writes_byte_to_stderr() {
    // Push 3 onto stack 3; Add one value from stack 3 to stack 2.
    let codes = vec![instr(0, 1, 3, Area::Nil), instr(1, 1, 2, Area::Nil)];
    let (out, err, status) = run_plain(&codes, "");
    assert!(status == RunStatus::Finished);
    assert!(out.is_empty());
    assert!(err == vec![3u8]);
}

#[test]
fn input_line_echoes_first_character() {
    // With the current stack set to 0, an Add reads one line and sums
    // the top code point to stack 1.
    let io_in: Vec<char> = "A\n".chars().collect();
    let mut io = IoBuf::new(io_in);
    let mut state = UnOptState::new();
    state.set_current_stack(0);
    let codes = vec![instr(1, 1, 1, Area::Nil)];
    let (_st, status) = run_program(&mut io, state, &codes, 100000);
    assert!(status == RunStatus::Finished);
    assert!(io.out == vec![65u8]);
}

#[test]
fn pop_from_stack_one_halts_with_exit_zero() {
    // Dup makes stack 1 current; the following Add pops from it and
    // halts the program. The Dup itself pushes the undefined value
    // onto stack 1, which prints its decimal form.
    let codes = vec![instr(5, 1, 1, Area::Nil), instr(1, 1, 3, Area::Nil)];
    let (out, _err, status) = run_plain(&codes, "");
    assert!(status == RunStatus::Halted(0));
    assert!(out == b"nan".to_vec());
}

#[test]
fn pop_from_stack_two_halts_with_exit_one() {
    let codes = vec![instr(5, 1, 2, Area::Nil), instr(1, 1, 3, Area::Nil)];
    let (_out, err, status) = run_plain(&codes, "");
    assert!(status == RunStatus::Halted(1));
    assert!(err == b"nan".to_vec());
}

#[test]
fn positive_pushes_concatenate_bytes_on_stdout() {
    let codes = vec![
        instr(0, 1, 65, Area::Nil),
        instr(1, 1, 1, Area::Nil),
        instr(0, 2, 33, Area::Nil),
        instr(1, 1, 1, Area::Nil),
    ];
    let (out, _err, status) = run_plain(&codes, "");
    assert!(status == RunStatus::Finished);
    assert!(out == b"AB".to_vec());
}

#[test]
fn division_pipeline_prints_inf() {
    // RecipMul of a popped zero pushes the reciprocal of zero, which is
    // positive infinity, onto stack 1: the decimal path prints `inf`.
    let codes = vec![instr(0, 1, 0, Area::Nil), instr(4, 1, 1, Area::Nil)];
    let (out, _err, status) = run_plain(&codes, "");
    assert!(status == RunStatus::Finished);
    assert!(out == b"inf".to_vec());
}

#[test]
fn area_operator_picks_branch_from_stack_top() {
    let leaf = Area::new(2);
    let a = Area::Val {
        type_: 0,
        left: Box::new(leaf),
        right: Box::new(Area::Nil),
    };
    // An undefined top takes the right branch, which is empty.
    assert!(matches!(a.eval(true, false), AreaChoice::Stay));
    // A defined top takes the left branch, the leaf naming target 2.
    assert!(matches!(a.eval(false, false), AreaChoice::Jump(2)));
    // The sign operator takes the right branch on a negative top.
    let b = Area::Val {
        type_: 1,
        left: Box::new(Area::Nil),
        right: Box::new(Area::new(5)),
    };
    assert!(matches!(b.eval(false, true), AreaChoice::Jump(5)));
    assert!(matches!(b.eval(false, false), AreaChoice::Stay));
}

#[test]
fn repoint_leaf_loops_until_fuel_runs_out() {
    // A leaf of kind 13 re-points to its own instruction and jumps
    // there at once, so the single push repeats forever.
    let codes = vec![instr(0, 1, 1, Area::new(13))];
    let (out, _err, status) = run_plain(&codes, "");
    assert!(status == RunStatus::OutOfFuel);
    assert!(out.is_empty());
}

#[test]
fn optimizer_preserves_run_results() {
    let codes = vec![instr(0, 1, 1, Area::Nil), instr(3, 1, 1, Area::Nil)];
    let (out, err, status) = run_plain(&codes, "");
    for level in 1..3usize {
        let rebuilt = vec![instr(0, 1, 1, Area::Nil), instr(3, 1, 1, Area::Nil)];
        let (opt_state, opt_codes) = optimize(rebuilt, level);
        let mut io = IoBuf::new(Vec::new());
        let (_st, opt_status) = run_program(&mut io, opt_state, &opt_codes, 100000);
        assert!(opt_status == status);
        assert!(io.out == out);
        assert!(io.err == err);
    }
}

#[test]
fn optimizer_folds_push_products() {
    // A push of 2·3 becomes a push of 1·6: the same value, one product.
    let codes = vec![instr(0, 2, 3, Area::Nil), instr(1, 1, 1, Area::Nil)];
    let (out, _err, status) = run_plain(&codes, "");
    assert!(status == RunStatus::Finished);
    assert!(out == vec![6u8]);
    let rebuilt = vec![instr(0, 2, 3, Area::Nil), instr(1, 1, 1, Area::Nil)];
    let (opt_state, opt_codes) = optimize(rebuilt, 1);
    assert!(opt_codes[0].hangul_count == 1);
    assert!(opt_codes[0].dot_count == 6);
    assert!(opt_codes[0].area_count == 6);
    let mut io = IoBuf::new(Vec::new());
    let (_st, opt_status) = run_program(&mut io, opt_state, &opt_codes, 100000);
    assert!(opt_status == status);
    assert!(io.out == out);
}

#[test]
fn optimizer_is_idempotent_on_instructions() {
    let codes = vec![instr(2, 3, 4, Area::new(7)), instr(5, 1, 2, Area::Nil)];
    let (_state, once) = optimize(codes, 2);
    let again = opt_pass(once, 2);
    let third = opt_pass(again, 2);
    assert!(third.len() == 2);
    for i in 0..third.len() {
        assert!(third[i].type_ == [2u8, 5u8][i]);
        assert!(third[i].area_count == [12usize, 2usize][i]);
    }
}

#[test]
fn instruction_renders_with_location_and_area() {
    let c = UnOptCode::new(0, 1, 2, (1, 5), Area::Nil);
    assert!(c.to_string() == "1:5 \u{d615}_1_2 : _");
    assert!(c.get_location() == (1, 5));
    let a = Area::Val {
        type_: 0,
        left: Box::new(Area::new(2)),
        right: Box::new(Area::Nil),
    };
    let c2 = UnOptCode::new(1, 2, 3, (0, 0), a);
    assert!(c2.to_string() == "0:0 \u{d56d}_2_3 : [\u{2665}]?[_]");
}

#[test]
fn labels_register_once_and_jumps_go_backward() {
    // Instruction 0 pushes 7 and its area names target 2, registering
    // point 2 at location 0 on the first pass. Instruction 1 makes
    // stack 1 current via Dup; its area also names target 2, so the
    // second pass jumps back to instruction 0, whose push now goes to
    // stack 1 and prints a byte; its area jumps back to itself until
    // the re-entered Dup pops stack 1 and halts.
    let codes = vec![instr(0, 1, 7, Area::new(2)), instr(5, 1, 1, Area::new(2))];
    let (out, _err, status) = run_plain(&codes, "");
    // Push 7 onto stack 3 and register point 2 there; Dup emits byte 7
    // to stack 1 and jumps back; the re-run push emits byte 7 again and
    // falls through; the re-entered Dup pops stack 1 and halts.
    assert!(status == RunStatus::Halted(0));
    assert!(out == vec![7u8, 7u8]);
}
