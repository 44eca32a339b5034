use tapevm::inst::Instr;
use tapevm::machine::{eval, resume, EvalError, Io, Machine, Status};
use tapevm::translate::compile;

const FUEL: u64 = u64::MAX;

fn run_str(src: &str, machine: &mut Machine, io: &mut Io) -> Result<Status, EvalError> {
    let prog = compile(&src.as_bytes().to_vec(), 0).unwrap();
    eval(&prog, machine, io, FUEL)
}

#[test]
fn fresh_machine_is_one_zero_cell() {
    let m = Machine::new();
    assert_eq!(m.tape, vec![0]);
    assert_eq!(m.cursor, 0);
}

#[test]
fn increment_raises_first_cell() {
    let mut m = Machine::new();
    let mut io = Io::new(vec![]);
    assert_eq!(run_str("+", &mut m, &mut io), Ok(Status::Halted));
    assert_eq!(m.tape, vec![1]);
}

#[test]
fn clearing_loop_runs_once_and_halts() {
    let mut m = Machine::new();
    let mut io = Io::new(vec![]);
    assert_eq!(run_str("+[-]", &mut m, &mut io), Ok(Status::Halted));
    assert_eq!(m.tape, vec![0]);
}

#[test]
fn increment_wraps_at_256() {
    let mut m = Machine::new();
    let mut io = Io::new(vec![]);
    let many = "+".repeat(255);
    assert_eq!(run_str(&many, &mut m, &mut io), Ok(Status::Halted));
    assert_eq!(m.tape, vec![255]);
    assert_eq!(run_str("+", &mut m, &mut io), Ok(Status::Halted));
    assert_eq!(m.tape, vec![0]);
}

#[test]
fn decrement_wraps_below_zero() {
    let mut m = Machine::new();
    let mut io = Io::new(vec![]);
    assert_eq!(run_str("-", &mut m, &mut io), Ok(Status::Halted));
    assert_eq!(m.tape, vec![255]);
}

#[test]
fn tape_grows_one_zero_cell_per_move_right() {
    let mut m = Machine::new();
    let mut io = Io::new(vec![]);
    for expected_len in 2..=6 {
        assert_eq!(run_str(">", &mut m, &mut io), Ok(Status::Halted));
        assert_eq!(m.tape.len(), expected_len);
        assert_eq!(*m.tape.last().unwrap(), 0);
        assert_eq!(m.cursor, expected_len - 1);
    }
}

#[test]
fn move_right_inside_tape_does_not_grow_it() {
    let mut m = Machine::new();
    let mut io = Io::new(vec![]);
    assert_eq!(run_str("><", &mut m, &mut io), Ok(Status::Halted));
    assert_eq!(m.tape.len(), 2);
    assert_eq!(run_str(">", &mut m, &mut io), Ok(Status::Halted));
    assert_eq!(m.tape.len(), 2);
}

#[test]
fn echo_one_byte() {
    let mut m = Machine::new();
    let mut io = Io::new(vec![0x41]);
    assert_eq!(run_str(",.", &mut m, &mut io), Ok(Status::Halted));
    assert_eq!(io.output, vec![0x41]);
}

#[test]
fn cell_doubling_loop_outputs_four() {
    let mut m = Machine::new();
    let mut io = Io::new(vec![]);
    assert_eq!(run_str("++[>++<-]>.", &mut m, &mut io), Ok(Status::Halted));
    assert_eq!(io.output, vec![0x04]);
}

#[test]
fn output_writes_current_cell() {
    let mut m = Machine::new();
    let mut io = Io::new(vec![]);
    assert_eq!(run_str(".", &mut m, &mut io), Ok(Status::Halted));
    assert_eq!(io.output, vec![0]);
}

#[test]
fn input_past_end_of_stream_is_fatal() {
    let mut m = Machine::new();
    let mut io = Io::new(vec![]);
    assert_eq!(run_str(",", &mut m, &mut io), Err(EvalError::InputExhausted));
}

#[test]
fn move_left_from_position_zero_is_fatal() {
    let mut m = Machine::new();
    let mut io = Io::new(vec![]);
    assert_eq!(run_str("<", &mut m, &mut io), Err(EvalError::TapeUnderflow));
}

#[test]
fn machine_state_persists_across_units() {
    let mut m = Machine::new();
    let mut io = Io::new(vec![]);
    assert_eq!(run_str("+", &mut m, &mut io), Ok(Status::Halted));
    assert_eq!(run_str("+", &mut m, &mut io), Ok(Status::Halted));
    assert_eq!(m.tape, vec![2]);
}

#[test]
fn input_stream_is_shared_across_units() {
    let mut m = Machine::new();
    let mut io = Io::new(vec![7, 9]);
    assert_eq!(run_str(",", &mut m, &mut io), Ok(Status::Halted));
    assert_eq!(run_str(",.", &mut m, &mut io), Ok(Status::Halted));
    assert_eq!(io.output, vec![9]);
}

#[test]
fn out_of_fuel_pauses_and_resumes() {
    let prog = compile(&"++".as_bytes().to_vec(), 0).unwrap();
    let mut m = Machine::new();
    let mut io = Io::new(vec![]);
    assert_eq!(eval(&prog, &mut m, &mut io, 1), Ok(Status::Paused(1)));
    assert_eq!(m.tape, vec![1]);
    assert_eq!(resume(&prog, &mut m, &mut io, 1, FUEL), Ok(Status::Halted));
    assert_eq!(m.tape, vec![2]);
}

#[test]
fn zero_cell_skips_loop_body() {
    let mut m = Machine::new();
    let mut io = Io::new(vec![]);
    assert_eq!(run_str("[[]]", &mut m, &mut io), Ok(Status::Halted));
    assert_eq!(m.tape, vec![0]);
    assert_eq!(io.output, vec![] as Vec<u8>);
}

#[test]
fn empty_program_halts_immediately() {
    let prog: Vec<Instr> = vec![];
    let mut m = Machine::new();
    let mut io = Io::new(vec![]);
    assert_eq!(eval(&prog, &mut m, &mut io, 0), Ok(Status::Halted));
    assert_eq!(m.tape, vec![0]);
}
