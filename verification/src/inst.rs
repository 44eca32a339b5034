use vstd::prelude::*;

verus! {

/// One instruction of the flat executable form.
///
/// Instructions are immutable once produced and are addressed solely by their
/// position in the sequence that contains them; jump targets are absolute
/// indices into that same sequence.
#[derive(Clone, Copy, Debug, PartialEq, Eq, Structural)]
pub enum Instr {
    /// Move the tape cursor one cell to the left.
    MoveLeft,
    /// Move the tape cursor one cell to the right, growing the tape by one
    /// zero cell if the cursor runs past the end.
    MoveRight,
    /// Add one to the current cell, wrapping modulo 256.
    Increment,
    /// Subtract one from the current cell, wrapping modulo 256.
    Decrement,
    /// Write the current cell to the output stream.
    Output,
    /// Read one byte from the input stream into the current cell.
    Input,
    /// Jump to the given absolute index when the current cell is zero;
    /// otherwise fall through to the next instruction.
    JumpIfZero(usize),
    /// Jump unconditionally to the given absolute index.
    Jump(usize),
}

} // verus!
