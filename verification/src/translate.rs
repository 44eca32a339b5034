use crate::inst::Instr;
use vstd::prelude::*;

verus! {

/// Why a source unit was rejected by the translator.
#[derive(Clone, Copy, Debug, PartialEq, Eq, Structural)]
pub enum CompileError {
    /// A `[` was never closed: the scan ran off the end of the source while
    /// inside a loop body.
    UnmatchedOpen,
    /// A `]` appeared with no loop open.
    UnmatchedClose,
}

/// The code of the source character `<`.
pub const LEFT_CH: u8 = 60;

/// The code of the source character `>`.
pub const RIGHT_CH: u8 = 62;

/// The code of the source character `+`.
pub const INC_CH: u8 = 43;

/// The code of the source character `-`.
pub const DEC_CH: u8 = 45;

/// The code of the source character `.`.
pub const OUT_CH: u8 = 46;

/// The code of the source character `,`.
pub const IN_CH: u8 = 44;

/// The code of the source character `[`.
pub const OPEN_CH: u8 = 91;

/// The code of the source character `]`.
pub const CLOSE_CH: u8 = 93;

/// Whether a byte is one of the six single-instruction source characters.
pub open spec fn is_op(c: u8) -> bool {
    c == LEFT_CH || c == RIGHT_CH || c == INC_CH || c == DEC_CH || c == OUT_CH || c == IN_CH
}

/// The instruction a single-instruction source character translates to:
/// `<` `>` `+` `-` `.` `,` in that order.
pub open spec fn op_of(c: u8) -> Instr
    recommends
        is_op(c),
{
    if c == LEFT_CH {
        Instr::MoveLeft
    } else if c == RIGHT_CH {
        Instr::MoveRight
    } else if c == INC_CH {
        Instr::Increment
    } else if c == DEC_CH {
        Instr::Decrement
    } else if c == OUT_CH {
        Instr::Output
    } else {
        Instr::Input
    }
}

/// One open translation level: the absolute position its first instruction
/// will occupy in the finished sequence, and the instructions emitted at this
/// level so far.  The bottom level is the whole source unit; each level above
/// it is a loop body whose `[` has been seen but whose `]` has not.
#[verifier::ext_equal]
pub struct Frame {
    /// The absolute index of this level's first instruction.  For a loop body
    /// that is one past the position reserved for its `JumpIfZero`.
    pub base: int,
    /// The instructions emitted at this level so far.
    pub out: Seq<Instr>,
}

/// The absolute position the next emitted instruction will occupy.
pub open spec fn next_abs(st: Seq<Frame>) -> int
    recommends
        st.len() >= 1,
{
    st.last().base + st.last().out.len()
}

/// The translator, one consumed source byte at a time.  `st` is the stack of
/// open levels, bottom first; a translation of a whole unit starts from a
/// single empty level.
///
/// On `[`, a new level is opened one past the current position, reserving
/// that position for the loop's `JumpIfZero`.  On `]`, the finished body is
/// closed with a `Jump` back to the reserved position and folded into the
/// level below, behind a `JumpIfZero` aimed just past the body's `Jump`.  A
/// `]` with only the bottom level open, or an end of input with a level still
/// open, is a bracket mismatch.  Any byte that is neither a bracket nor one
/// of the six instruction characters is skipped.
pub open spec fn sc(s: Seq<u8>, i: int, st: Seq<Frame>) -> Result<Seq<Instr>, CompileError>
    recommends
        0 <= i,
        st.len() >= 1,
    decreases s.len() - i,
{
    if i < 0 || i >= s.len() {
        if st.len() == 1 {
            Ok(st[0].out)
        } else {
            Err(CompileError::UnmatchedOpen)
        }
    } else {
        let c = s[i];
        if c == CLOSE_CH {
            if st.len() <= 1 {
                Err(CompileError::UnmatchedClose)
            } else {
                let child = st.last();
                let parent = st[st.len() - 2];
                let body = child.out.push(Instr::Jump((child.base - 1) as usize));
                let target = (child.base + body.len()) as usize;
                let merged = Frame {
                    base: parent.base,
                    out: parent.out.push(Instr::JumpIfZero(target)) + body,
                };
                sc(s, i + 1, st.subrange(0, st.len() - 2).push(merged))
            }
        } else if c == OPEN_CH {
            sc(s, i + 1, st.push(Frame { base: next_abs(st) + 1, out: Seq::empty() }))
        } else if is_op(c) {
            let top = Frame { base: st.last().base, out: st.last().out.push(op_of(c)) };
            sc(s, i + 1, st.update(st.len() - 1, top))
        } else {
            sc(s, i + 1, st)
        }
    }
}

/// What translating source `s` with base offset `base` yields: the flat
/// instruction sequence, or the bracket mismatch that makes `s` untranslatable.
pub open spec fn spec_compile(s: Seq<u8>, base: int) -> Result<Seq<Instr>, CompileError> {
    sc(s, 0, seq![Frame { base, out: Seq::empty() }])
}

/// How many occurrences of the byte `c` the suffix of `s` starting at `i`
/// holds.
pub open spec fn count_byte(s: Seq<u8>, i: int, c: u8) -> int
    decreases s.len() - i,
{
    if i < 0 || i >= s.len() {
        0
    } else {
        (if s[i] == c {
            1int
        } else {
            0int
        }) + count_byte(s, i + 1, c)
    }
}

/// Whether the suffix of `s` starting at `i`, scanned with `depth` loops
/// already open, closes every loop it opens and opens every loop it closes.
pub open spec fn balanced_from(s: Seq<u8>, i: int, depth: int) -> bool
    decreases s.len() - i,
{
    if i < 0 || i >= s.len() {
        depth == 0
    } else if s[i] == OPEN_CH {
        balanced_from(s, i + 1, depth + 1)
    } else if s[i] == CLOSE_CH {
        depth > 0 && balanced_from(s, i + 1, depth - 1)
    } else {
        balanced_from(s, i + 1, depth)
    }
}

/// Whether the brackets of `s` are properly matched.
pub open spec fn balanced(s: Seq<u8>) -> bool {
    balanced_from(s, 0, 0)
}

/// Through a whole translation, each level of the stack above the bottom one
/// answers for one `[` still open, so a suffix that translates has one more
/// `]` than `[` for each of them.
proof fn lemma_sc_counts(s: Seq<u8>, i: int, st: Seq<Frame>)
    requires
        0 <= i,
        st.len() >= 1,
        sc(s, i, st) is Ok,
    ensures
        count_byte(s, i, OPEN_CH) + st.len() - 1 == count_byte(s, i, CLOSE_CH),
    decreases s.len() - i,
{
    if i >= s.len() {
    } else {
        let c = s[i];
        if c == CLOSE_CH {
            let child = st.last();
            let parent = st[st.len() - 2];
            let body = child.out.push(Instr::Jump((child.base - 1) as usize));
            let merged = Frame {
                base: parent.base,
                out: parent.out.push(Instr::JumpIfZero((child.base + body.len()) as usize)) + body,
            };
            lemma_sc_counts(s, i + 1, st.subrange(0, st.len() - 2).push(merged));
        } else if c == OPEN_CH {
            lemma_sc_counts(s, i + 1, st.push(Frame { base: next_abs(st) + 1, out: Seq::empty() }));
        } else if is_op(c) {
            let top = Frame { base: st.last().base, out: st.last().out.push(op_of(c)) };
            lemma_sc_counts(s, i + 1, st.update(st.len() - 1, top));
        } else {
            lemma_sc_counts(s, i + 1, st);
        }
    }
}

/// A suffix translates exactly when it is bracket-balanced for the number of
/// loops the stack holds open.
proof fn lemma_sc_ok_iff_balanced(s: Seq<u8>, i: int, st: Seq<Frame>)
    requires
        0 <= i,
        st.len() >= 1,
    ensures
        sc(s, i, st) is Ok <==> balanced_from(s, i, st.len() - 1),
    decreases s.len() - i,
{
    if i >= s.len() {
    } else {
        let c = s[i];
        if c == CLOSE_CH {
            if st.len() > 1 {
                let child = st.last();
                let parent = st[st.len() - 2];
                let body = child.out.push(Instr::Jump((child.base - 1) as usize));
                let merged = Frame {
                    base: parent.base,
                    out: parent.out.push(Instr::JumpIfZero((child.base + body.len()) as usize))
                        + body,
                };
                lemma_sc_ok_iff_balanced(s, i + 1, st.subrange(0, st.len() - 2).push(merged));
            }
        } else if c == OPEN_CH {
            lemma_sc_ok_iff_balanced(
                s,
                i + 1,
                st.push(Frame { base: next_abs(st) + 1, out: Seq::empty() }),
            );
        } else if is_op(c) {
            let top = Frame { base: st.last().base, out: st.last().out.push(op_of(c)) };
            lemma_sc_ok_iff_balanced(s, i + 1, st.update(st.len() - 1, top));
        } else {
            lemma_sc_ok_iff_balanced(s, i + 1, st);
        }
    }
}

/// One more than the number of instructions a stack of levels holds: each
/// level contributes its emitted instructions plus the one instruction
/// (`JumpIfZero`, or the whole unit's frame) that closing it accounts for.
pub open spec fn stack_size(st: Seq<Frame>) -> int
    decreases st.len(),
{
    if st.len() == 0 {
        0
    } else {
        stack_size(st.drop_last()) + st.last().out.len() + 1
    }
}

/// Each consumed source byte adds at most one instruction to the stack as a
/// whole, so a translated suffix is never longer than the suffix itself.
proof fn lemma_sc_output_length(s: Seq<u8>, i: int, st: Seq<Frame>, p: Seq<Instr>)
    requires
        0 <= i <= s.len(),
        st.len() >= 1,
        sc(s, i, st) == Ok::<Seq<Instr>, CompileError>(p),
    ensures
        p.len() + 1 <= stack_size(st) + s.len() - i,
        stack_size(st) <= p.len() + 1,
    decreases s.len() - i,
{
    if i >= s.len() {
        assert(st.len() == 1);
        assert(stack_size(st.drop_last()) == 0);
        assert(stack_size(st) == st[0].out.len() + 1);
    } else {
        let c = s[i];
        if c == CLOSE_CH {
            let child = st.last();
            let parent = st[st.len() - 2];
            let body = child.out.push(Instr::Jump((child.base - 1) as usize));
            let merged = Frame {
                base: parent.base,
                out: parent.out.push(Instr::JumpIfZero((child.base + body.len()) as usize)) + body,
            };
            let st2 = st.subrange(0, st.len() - 2).push(merged);
            lemma_sc_output_length(s, i + 1, st2, p);
            assert(st2.drop_last() =~= st.subrange(0, st.len() - 2));
            assert(st.drop_last().drop_last() =~= st.subrange(0, st.len() - 2));
            assert(stack_size(st) == stack_size(st.drop_last()) + child.out.len() + 1);
            assert(stack_size(st.drop_last()) == stack_size(st.subrange(0, st.len() - 2))
                + parent.out.len() + 1);
            assert(stack_size(st2) == stack_size(st) + 1);
        } else if c == OPEN_CH {
            let st2 = st.push(Frame { base: next_abs(st) + 1, out: Seq::empty() });
            lemma_sc_output_length(s, i + 1, st2, p);
            assert(st2.drop_last() =~= st);
            assert(stack_size(st2) == stack_size(st) + 1);
        } else if is_op(c) {
            let top = Frame { base: st.last().base, out: st.last().out.push(op_of(c)) };
            let st2 = st.update(st.len() - 1, top);
            lemma_sc_output_length(s, i + 1, st2, p);
            assert(st2.drop_last() =~= st.drop_last());
            assert(st2.last() == top);
            assert(stack_size(st2) == stack_size(st) + 1);
        } else {
            lemma_sc_output_length(s, i + 1, st, p);
        }
    }
}

/// The translator emits at most one instruction per consumed source byte: a
/// sequence it produces is never longer than the source it came from.
pub proof fn lemma_compile_output_length(s: Seq<u8>, base: int, p: Seq<Instr>)
    requires
        spec_compile(s, base) == Ok::<Seq<Instr>, CompileError>(p),
    ensures
        p.len() <= s.len(),
{
    let st = seq![Frame { base, out: Seq::empty() }];
    lemma_sc_output_length(s, 0, st, p);
    assert(stack_size(st.drop_last()) == 0);
    assert(stack_size(st) == 1);
}

/// Whether every jump held by `ins` aims at an absolute index between `lo`
/// and `hi`, both included.
pub open spec fn instr_targets_in(ins: Instr, lo: int, hi: int) -> bool {
    match ins {
        Instr::JumpIfZero(t) => lo <= t <= hi,
        Instr::Jump(t) => lo <= t <= hi,
        _ => true,
    }
}

/// Whether every jump in `p` aims at an absolute index between `lo` and
/// `hi`, both included.
pub open spec fn targets_in(p: Seq<Instr>, lo: int, hi: int) -> bool {
    forall|k: int| 0 <= k < p.len() ==> instr_targets_in(#[trigger] p[k], lo, hi)
}

/// Whether a stack of levels is well chained over base offset `base`: the
/// bottom level starts at `base`, and each level above starts one past its
/// parent's next free position — past the spot reserved for the loop's
/// `JumpIfZero`.
pub open spec fn chained(st: Seq<Frame>, base: int) -> bool {
    &&& st.len() >= 1
    &&& st[0].base == base
    &&& forall|k: int|
        1 <= k < st.len() ==> (#[trigger] st[k].base) == st[k - 1].base + st[k - 1].out.len() + 1
}

/// In a well-chained stack, level `j` starts no earlier than `base + j`.
proof fn lemma_chained_bases(st: Seq<Frame>, base: int, j: int)
    requires
        chained(st, base),
        0 <= j < st.len(),
    ensures
        st[j].base >= base + j,
    decreases j,
{
    if j > 0 {
        lemma_chained_bases(st, base, j - 1);
    }
}

/// In a well-chained stack, the next free absolute position is `base` plus
/// the number of instructions the stack accounts for.
proof fn lemma_chained_next_abs(st: Seq<Frame>, base: int)
    requires
        chained(st, base),
    ensures
        next_abs(st) == base + stack_size(st) - 1,
    decreases st.len(),
{
    if st.len() == 1 {
        assert(stack_size(st.drop_last()) == 0);
    } else {
        let st1 = st.drop_last();
        assert(chained(st1, base));
        lemma_chained_next_abs(st1, base);
        assert(st1.last() == st[st.len() - 2]);
    }
}

/// Starting at a well-chained stack whose levels hold only jumps into the
/// final range, every jump of the finished sequence aims at the sequence
/// itself — at worst one past its last instruction, the address at which
/// execution halts.
#[verifier::rlimit(30)]
proof fn lemma_sc_targets(s: Seq<u8>, i: int, st: Seq<Frame>, base: int, p: Seq<Instr>)
    requires
        0 <= i <= s.len(),
        0 <= base,
        base + stack_size(st) + s.len() - i <= usize::MAX + 1,
        chained(st, base),
        sc(s, i, st) == Ok::<Seq<Instr>, CompileError>(p),
        forall|j: int| 0 <= j < st.len() ==> targets_in((#[trigger] st[j]).out, base, base + p.len()),
    ensures
        targets_in(p, base, base + p.len()),
    decreases s.len() - i,
{
    if i >= s.len() {
        assert(p == st[0].out);
    } else {
        let c = s[i];
        if c == CLOSE_CH {
            let child = st.last();
            let parent = st[st.len() - 2];
            let body = child.out.push(Instr::Jump((child.base - 1) as usize));
            let target = (child.base + body.len()) as usize;
            let merged = Frame {
                base: parent.base,
                out: parent.out.push(Instr::JumpIfZero(target)) + body,
            };
            let st2 = st.subrange(0, st.len() - 2).push(merged);
            assert(chained(st2, base));
            lemma_sc_output_length(s, i + 1, st2, p);
            assert(st2.drop_last() =~= st.subrange(0, st.len() - 2));
            assert(st.drop_last().drop_last() =~= st.subrange(0, st.len() - 2));
            assert(stack_size(st.drop_last()) == stack_size(st.subrange(0, st.len() - 2))
                + parent.out.len() + 1);
            assert(stack_size(st2) == stack_size(st) + 1);
            lemma_chained_next_abs(st, base);
            lemma_chained_bases(st, base, st.len() - 1);
            // the reserved spot lies inside the sequence, the landing spot at
            // worst one past its end
            assert(base + 1 <= child.base);
            assert(child.base + body.len() == base + stack_size(st) <= base + p.len());
            let hi = base + p.len();
            assert(targets_in(parent.out, base, hi));
            assert(targets_in(child.out, base, hi));
            assert forall|k: int| 0 <= k < merged.out.len() implies instr_targets_in(
                #[trigger] merged.out[k],
                base,
                hi,
            ) by {
                if k < parent.out.len() {
                    assert(merged.out[k] == parent.out[k]);
                } else if k == parent.out.len() {
                    assert(merged.out[k] == Instr::JumpIfZero(target));
                } else {
                    let k2 = k - parent.out.len() - 1;
                    assert(merged.out[k] == body[k2]);
                    if k2 < child.out.len() {
                        assert(body[k2] == child.out[k2]);
                    } else {
                        assert(body[k2] == Instr::Jump((child.base - 1) as usize));
                    }
                }
            }
            assert(targets_in(merged.out, base, hi));
            lemma_sc_targets(s, i + 1, st2, base, p);
        } else if c == OPEN_CH {
            let st2 = st.push(Frame { base: next_abs(st) + 1, out: Seq::empty() });
            assert(chained(st2, base));
            assert(st2.drop_last() =~= st);
            assert(stack_size(st2) == stack_size(st) + 1);
            lemma_sc_targets(s, i + 1, st2, base, p);
        } else if is_op(c) {
            let top = Frame { base: st.last().base, out: st.last().out.push(op_of(c)) };
            let st2 = st.update(st.len() - 1, top);
            assert(chained(st2, base));
            assert(st2.drop_last() =~= st.drop_last());
            assert(st2.last() == top);
            assert(stack_size(st2) == stack_size(st) + 1);
            assert(targets_in(top.out, base, base + p.len()));
            lemma_sc_targets(s, i + 1, st2, base, p);
        } else {
            lemma_sc_targets(s, i + 1, st, base, p);
        }
    }
}

/// Every jump of a translated sequence is resolved to an absolute index into
/// that same sequence: between `base` and, at worst, one past the last
/// instruction — the address at which execution halts.
pub proof fn lemma_compile_jump_targets(s: Seq<u8>, base: int, p: Seq<Instr>)
    requires
        0 <= base,
        base + s.len() <= usize::MAX,
        spec_compile(s, base) == Ok::<Seq<Instr>, CompileError>(p),
    ensures
        targets_in(p, base, base + p.len()),
{
    let st = seq![Frame { base, out: Seq::empty() }];
    assert(stack_size(st.drop_last()) == 0);
    assert(stack_size(st) == 1);
    lemma_sc_targets(s, 0, st, base, p);
}

/// A source that translates has as many `[` as `]`; one with unequal counts
/// is rejected, whatever the base offset.
pub proof fn lemma_compile_bracket_counts(s: Seq<u8>, base: int)
    requires
        spec_compile(s, base) is Ok,
    ensures
        count_byte(s, 0, OPEN_CH) == count_byte(s, 0, CLOSE_CH),
{
    lemma_sc_counts(s, 0, seq![Frame { base, out: Seq::empty() }]);
}

/// Translation succeeds exactly on bracket-balanced sources, whatever the
/// base offset.
pub proof fn lemma_compile_ok_iff_balanced(s: Seq<u8>, base: int)
    ensures
        spec_compile(s, base) is Ok <==> balanced(s),
{
    lemma_sc_ok_iff_balanced(s, 0, seq![Frame { base, out: Seq::empty() }]);
}

/// The translator holds no hidden state: two translations of the same source
/// with the same base offset yield the same result.  Since `compile` returns
/// exactly `spec_compile` of its arguments, any two of its results on equal
/// inputs agree.
pub proof fn lemma_compile_deterministic(
    s: Seq<u8>,
    base: int,
    r1: Result<Seq<Instr>, CompileError>,
    r2: Result<Seq<Instr>, CompileError>,
)
    requires
        r1 == spec_compile(s, base),
        r2 == spec_compile(s, base),
    ensures
        r1 == r2,
{
}

/// An open translation level as the translator holds it at run time.
pub struct Level {
    /// The absolute index of this level's first instruction.
    pub base: usize,
    /// The instructions emitted at this level so far.
    pub out: Vec<Instr>,
}

impl View for Level {
    type V = Frame;

    open spec fn view(&self) -> Frame {
        Frame { base: self.base as int, out: self.out@ }
    }
}

/// The levels a stack of `Level`s stands for.
pub open spec fn levels(st: Seq<Level>) -> Seq<Frame> {
    st.map_values(|l: Level| l@)
}

/// The instruction a source byte translates to, `None` for a byte that is
/// neither a bracket nor one of the six instruction characters.
fn op_for(c: u8) -> (r: Option<Instr>)
    ensures
        is_op(c) ==> r == Some(op_of(c)),
        !is_op(c) ==> r is None,
{
    if c == LEFT_CH {
        Some(Instr::MoveLeft)
    } else if c == RIGHT_CH {
        Some(Instr::MoveRight)
    } else if c == INC_CH {
        Some(Instr::Increment)
    } else if c == DEC_CH {
        Some(Instr::Decrement)
    } else if c == OUT_CH {
        Some(Instr::Output)
    } else if c == IN_CH {
        Some(Instr::Input)
    } else {
        None
    }
}

/// Translate one source unit into a flat instruction sequence whose loop
/// jumps are resolved to absolute indices.
///
/// `base` is the absolute index the first produced instruction will occupy in
/// the sequence that will own the output.  Source bytes are consumed left to
/// right: the six instruction characters emit one instruction each, brackets
/// delimit loops, and every other byte is skipped.  A source whose brackets
/// do not match is rejected rather than translated: a `]` with no loop open
/// yields `UnmatchedClose`, a `[` that is never closed yields `UnmatchedOpen`.
pub fn compile(src: &Vec<u8>, base: usize) -> (r: Result<Vec<Instr>, CompileError>)
    requires
        base + src@.len() <= usize::MAX,
    ensures
        (match (spec_compile(src@, base as int), r) {
            (Ok(p), Ok(v)) => v@ == p,
            (Err(e), Err(e2)) => e == e2,
            _ => false,
        }),
{
    let mut stack: Vec<Level> = Vec::new();
    stack.push(Level { base, out: Vec::new() });
    proof {
        assert(levels(stack@) =~~= seq![Frame { base: base as int, out: Seq::empty() }]);
    }
    let mut i: usize = 0;
    while i < src.len()
        invariant
            stack@.len() >= 1,
            i <= src@.len(),
            base + src@.len() <= usize::MAX,
            stack@[0].base == base,
            forall|k: int|
                1 <= k < stack@.len() ==> (#[trigger] stack@[k].base) as int == stack@[k
                    - 1].base + stack@[k - 1].out@.len() + 1,
            stack@.last().base + stack@.last().out@.len() <= base + i,
            sc(src@, i as int, levels(stack@)) == spec_compile(src@, base as int),
        decreases src@.len() - i,
    {
        let ghost pre = levels(stack@);
        let c = src[i];
        if c == CLOSE_CH {
            if stack.len() == 1 {
                proof {
                    assert(sc(src@, i as int, pre) == Err::<Seq<Instr>, CompileError>(
                        CompileError::UnmatchedClose,
                    ));
                }
                return Err(CompileError::UnmatchedClose);
            }
            let mut child = stack.pop().unwrap();
            child.out.push(Instr::Jump(child.base - 1));
            let target = child.base + child.out.len();
            let mut parent = stack.pop().unwrap();
            parent.out.push(Instr::JumpIfZero(target));
            parent.out.append(&mut child.out);
            stack.push(parent);
            proof {
                let childf = pre.last();
                let parentf = pre[pre.len() - 2];
                let body = childf.out.push(Instr::Jump((childf.base - 1) as usize));
                let merged = Frame {
                    base: parentf.base,
                    out: parentf.out.push(Instr::JumpIfZero((childf.base + body.len()) as usize))
                        + body,
                };
                assert(levels(stack@) =~~= pre.subrange(0, pre.len() - 2).push(merged));
                assert(sc(src@, i as int, pre) == sc(src@, i + 1, levels(stack@)));
            }
        } else if c == OPEN_CH {
            let top = stack.pop().unwrap();
            let abs = top.base + top.out.len();
            stack.push(top);
            stack.push(Level { base: abs + 1, out: Vec::new() });
            proof {
                assert(levels(stack@) =~~= pre.push(
                    Frame { base: next_abs(pre) + 1, out: Seq::empty() },
                ));
                assert(sc(src@, i as int, pre) == sc(src@, i + 1, levels(stack@)));
            }
        } else {
            match op_for(c) {
                Some(op) => {
                    let mut top = stack.pop().unwrap();
                    top.out.push(op);
                    stack.push(top);
                    proof {
                        let topf = Frame {
                            base: pre.last().base,
                            out: pre.last().out.push(op_of(c)),
                        };
                        assert(levels(stack@) =~~= pre.update(pre.len() - 1, topf));
                        assert(sc(src@, i as int, pre) == sc(src@, i + 1, levels(stack@)));
                    }
                },
                None => {
                    proof {
                        assert(levels(stack@) == pre);
                        assert(sc(src@, i as int, pre) == sc(src@, i + 1, levels(stack@)));
                    }
                },
            }
        }
        i = i + 1;
    }
    if stack.len() > 1 {
        proof {
            assert(sc(src@, i as int, levels(stack@)) == Err::<Seq<Instr>, CompileError>(
                CompileError::UnmatchedOpen,
            ));
        }
        return Err(CompileError::UnmatchedOpen);
    }
    let ghost done = levels(stack@);
    let level = stack.pop().unwrap();
    proof {
        assert(sc(src@, i as int, done) == Ok::<Seq<Instr>, CompileError>(done[0].out));
        assert(done[0] == level@);
    }
    Ok(level.out)
}

} // verus!
