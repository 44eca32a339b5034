use tapevm::inst::Instr;
use tapevm::translate::{compile, CompileError};

fn compile_str(src: &str, base: usize) -> Result<Vec<Instr>, CompileError> {
    compile(&src.as_bytes().to_vec(), base)
}

#[test]
fn single_increment() {
    let prog = compile_str("+", 0).unwrap();
    assert_eq!(prog, vec![Instr::Increment]);
}

#[test]
fn all_six_single_instructions() {
    let prog = compile_str("<>+-.,", 0).unwrap();
    assert_eq!(
        prog,
        vec![
            Instr::MoveLeft,
            Instr::MoveRight,
            Instr::Increment,
            Instr::Decrement,
            Instr::Output,
            Instr::Input,
        ]
    );
}

#[test]
fn loop_targets_resolved() {
    let prog = compile_str("+[-]", 0).unwrap();
    assert_eq!(
        prog,
        vec![
            Instr::Increment,
            Instr::JumpIfZero(4),
            Instr::Decrement,
            Instr::Jump(1),
        ]
    );
}

#[test]
fn loop_targets_respect_base_offset() {
    let prog = compile_str("+[-]", 10).unwrap();
    assert_eq!(
        prog,
        vec![
            Instr::Increment,
            Instr::JumpIfZero(14),
            Instr::Decrement,
            Instr::Jump(11),
        ]
    );
}

#[test]
fn nested_loops() {
    let prog = compile_str("[[]]", 0).unwrap();
    assert_eq!(
        prog,
        vec![
            Instr::JumpIfZero(4),
            Instr::JumpIfZero(3),
            Instr::Jump(1),
            Instr::Jump(0),
        ]
    );
}

#[test]
fn unrecognized_characters_are_skipped() {
    let prog = compile_str("a+b c#", 0).unwrap();
    assert_eq!(prog, vec![Instr::Increment]);
}

#[test]
fn empty_source_yields_empty_program() {
    let prog = compile_str("", 0).unwrap();
    assert_eq!(prog, vec![]);
}

#[test]
fn unmatched_open_is_rejected() {
    assert_eq!(compile_str("[", 0), Err(CompileError::UnmatchedOpen));
    assert_eq!(compile_str("+[-", 0), Err(CompileError::UnmatchedOpen));
    assert_eq!(compile_str("[[]", 0), Err(CompileError::UnmatchedOpen));
}

#[test]
fn unmatched_close_is_rejected() {
    assert_eq!(compile_str("]", 0), Err(CompileError::UnmatchedClose));
    assert_eq!(compile_str("+]+", 0), Err(CompileError::UnmatchedClose));
}

#[test]
fn equal_counts_but_misordered_brackets_are_rejected() {
    assert_eq!(compile_str("][", 0), Err(CompileError::UnmatchedClose));
}

#[test]
fn unequal_bracket_counts_always_fail() {
    for src in ["[", "]", "+[+", "[]]", "[[]", "++]"] {
        assert!(compile_str(src, 0).is_err());
    }
}

#[test]
fn balanced_sources_translate() {
    for src in ["", "[]", "[[]]", "+[-]+[-]", "[+[+]+]"] {
        assert!(compile_str(src, 0).is_ok());
    }
}

#[test]
fn output_is_never_longer_than_source() {
    for src in ["", "+[-]", "++[>++<-]>.", "a+b and much more", "[[][]]"] {
        let prog = compile_str(src, 0).unwrap();
        assert!(prog.len() <= src.len());
    }
}

#[test]
fn jump_targets_stay_inside_the_sequence() {
    for src in ["+[-]", "++[>++<-]>.", "[[][]]", "[+[+]+]"] {
        for base in [0usize, 5] {
            let prog = compile_str(src, base).unwrap();
            for ins in &prog {
                match ins {
                    Instr::JumpIfZero(t) | Instr::Jump(t) => {
                        assert!(base <= *t && *t <= base + prog.len());
                    }
                    _ => {}
                }
            }
        }
    }
}

#[test]
fn translation_is_deterministic() {
    for src in ["", "+[-]", "++[>++<-]>.", "a+b", "["] {
        for base in [0usize, 7] {
            assert_eq!(compile_str(src, base), compile_str(src, base));
        }
    }
}
