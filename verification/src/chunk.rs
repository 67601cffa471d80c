//! The compiled-program artifact: an instruction sequence, a run-length
//! encoded line table, and a constant pool.

use vstd::prelude::*;

use crate::value::{Value, ValueM};

verus! {

/// One bytecode instruction.  Operand-bearing variants carry their operand
/// inline: a constant-pool index, an operand-stack slot, or a jump
/// distance.  `Jump` and `JumpIfFalse` move the instruction pointer
/// forward by their distance, `Loop` moves it backward.
#[derive(Clone, Copy, PartialEq, Eq, Structural, Debug)]
pub enum OpCode {
    Constant(u8),
    Nil,
    True,
    False,
    Pop,
    Negate,
    Not,
    Add,
    Subtract,
    Multiply,
    Divide,
    Equal,
    Greater,
    Less,
    GetLocal(u8),
    SetLocal(u8),
    GetGlobal(u8),
    SetGlobal(u8),
    DefineGlobal(u8),
    Print,
    Jump(usize),
    JumpIfFalse(usize),
    Loop(usize),
    Return,
}

/// One entry of the run-length encoded line table: `run_length`
/// consecutive instructions come from source line `line`.
pub struct LineEntry {
    pub line: usize,
    pub run_length: usize,
}

/// A chunk of compiled code: the instructions, a parallel line table, and
/// the constant pool the instructions index into.
pub struct Chunk {
    pub code: Vec<OpCode>,
    pub lines: Vec<LineEntry>,
    pub constants: Vec<Value>,
}

/// The mathematical model of a [`Chunk`].
pub ghost struct ChunkM {
    pub code: Seq<OpCode>,
    pub lines: Seq<(usize, usize)>,
    pub constants: Seq<ValueM>,
}

impl View for Chunk {
    type V = ChunkM;

    open spec fn view(&self) -> ChunkM {
        ChunkM {
            code: self.code@,
            lines: self.lines@.map_values(|e: LineEntry| (e.line, e.run_length)),
            constants: self.constants@.map_values(|v: Value| v@),
        }
    }
}

/// The number of instructions the line table accounts for.
pub open spec fn run_sum(lines: Seq<(usize, usize)>) -> int
    decreases lines.len(),
{
    if lines.len() == 0 {
        0
    } else {
        run_sum(lines.drop_last()) + lines.last().1
    }
}

/// The source line of the instruction at offset `i`, read off the
/// run-length encoded table.
pub open spec fn line_at(lines: Seq<(usize, usize)>, i: int) -> usize
    decreases lines.len(),
{
    if lines.len() == 0 {
        0
    } else if i < lines.first().1 {
        lines.first().0
    } else {
        line_at(lines.subrange(1, lines.len() as int), i - lines.first().1)
    }
}

pub proof fn lemma_run_sum_nonneg(lines: Seq<(usize, usize)>)
    ensures
        run_sum(lines) >= 0,
    decreases lines.len(),
{
    if lines.len() > 0 {
        lemma_run_sum_nonneg(lines.drop_last());
    }
}

/// Well-formedness of one instruction at offset `i` of a chunk whose code
/// has `code_len` instructions: constant-pool indices are in range, the
/// constants behind global-variable instructions are strings, and jump
/// targets stay inside `0 ..= code_len`.
pub open spec fn op_wf(op: OpCode, i: int, code_len: int, constants: Seq<ValueM>) -> bool {
    match op {
        OpCode::Constant(k) => (k as int) < constants.len(),
        OpCode::GetGlobal(k) => (k as int) < constants.len() && constants[k as int] is Str,
        OpCode::SetGlobal(k) => (k as int) < constants.len() && constants[k as int] is Str,
        OpCode::DefineGlobal(k) => (k as int) < constants.len() && constants[k as int] is Str,
        OpCode::Jump(d) => i + 1 + d <= code_len,
        OpCode::JumpIfFalse(d) => i + 1 + d <= code_len,
        OpCode::Loop(d) => (d as int) <= i + 1,
        _ => true,
    }
}

/// Every instruction of the chunk is well formed.
pub open spec fn code_wf(c: ChunkM) -> bool {
    forall|i: int|
        0 <= i < c.code.len() ==> op_wf(#[trigger] c.code[i], i, c.code.len() as int, c.constants)
}

/// The line table accounts for exactly the instructions of the chunk.
pub open spec fn lines_wf(c: ChunkM) -> bool {
    run_sum(c.lines) == c.code.len()
}

/// A well-formed chunk: the compiler establishes this and the machine
/// relies on it.
pub open spec fn chunk_wf(c: ChunkM) -> bool {
    code_wf(c) && lines_wf(c)
}

/// `run_sum` decomposes from the front as well as from the back.
pub proof fn lemma_run_sum_drop_first(lines: Seq<(usize, usize)>)
    requires
        lines.len() >= 1,
    ensures
        run_sum(lines) == lines.first().1 + run_sum(lines.subrange(1, lines.len() as int)),
    decreases lines.len(),
{
    if lines.len() == 1 {
        assert(lines.drop_last() =~= Seq::<(usize, usize)>::empty());
        assert(lines.subrange(1, 1) =~= Seq::<(usize, usize)>::empty());
    } else {
        let head = lines.drop_last();
        lemma_run_sum_drop_first(head);
        let tail = lines.subrange(1, lines.len() as int);
        assert(tail.drop_last() =~= head.subrange(1, head.len() as int));
        assert(run_sum(tail) == run_sum(tail.drop_last()) + tail.last().1);
        assert(tail.last() == lines.last());
    }
}

/// Extending the last run of the line table by one accounts for one more
/// instruction, keeps every already-covered offset on its line, and puts
/// the new offset on the last run's line.
pub proof fn lemma_line_at_extend_last(lines: Seq<(usize, usize)>)
    requires
        lines.len() >= 1,
        lines.last().1 < usize::MAX,
    ensures
        ({
            let grown = lines.update(
                lines.len() - 1,
                (lines.last().0, (lines.last().1 + 1) as usize),
            );
            &&& run_sum(grown) == run_sum(lines) + 1
            &&& forall|i: int| 0 <= i < run_sum(lines) ==> line_at(grown, i) == line_at(lines, i)
            &&& line_at(grown, run_sum(lines)) == lines.last().0
        }),
    decreases lines.len(),
{
    let grown = lines.update(lines.len() - 1, (lines.last().0, (lines.last().1 + 1) as usize));
    assert(grown.drop_last() =~= lines.drop_last());
    lemma_run_sum_nonneg(lines.drop_last());
    if lines.len() == 1 {
        assert(run_sum(lines) == lines.last().1);
        assert(forall|i: int|
            0 <= i < run_sum(lines) ==> line_at(grown, i) == line_at(lines, i));
    } else {
        let lines1 = lines.subrange(1, lines.len() as int);
        let grown1 = grown.subrange(1, grown.len() as int);
        lemma_line_at_extend_last(lines1);
        assert(grown1 =~= lines1.update(
            lines1.len() - 1,
            (lines1.last().0, (lines1.last().1 + 1) as usize),
        ));
        lemma_run_sum_drop_first(lines);
        lemma_run_sum_drop_first(grown);
        lemma_run_sum_nonneg(lines1);
        assert(grown.first() == lines.first());
        assert forall|i: int| 0 <= i < run_sum(lines) implies line_at(grown, i) == line_at(
            lines,
            i,
        ) by {
            if i >= lines.first().1 {
                assert(line_at(lines, i) == line_at(lines1, i - lines.first().1));
                assert(line_at(grown, i) == line_at(grown1, i - lines.first().1));
            }
        }
        assert(line_at(grown, run_sum(lines)) == line_at(grown1, run_sum(lines1)));
    }
}

/// Appending a fresh run of length one to the line table accounts for one
/// more instruction, keeps every already-covered offset on its line, and
/// puts the new offset on the fresh run's line.
pub proof fn lemma_line_at_push(lines: Seq<(usize, usize)>, line: usize)
    ensures
        run_sum(lines.push((line, 1))) == run_sum(lines) + 1,
        forall|i: int|
            0 <= i < run_sum(lines) ==> line_at(lines.push((line, 1)), i) == line_at(lines, i),
        line_at(lines.push((line, 1)), run_sum(lines)) == line,
    decreases lines.len(),
{
    let grown = lines.push((line, 1));
    assert(grown.drop_last() =~= lines);
    lemma_run_sum_nonneg(lines);
    if lines.len() == 0 {
        assert(line_at(grown, 0) == line);
    } else {
        let lines1 = lines.subrange(1, lines.len() as int);
        let grown1 = grown.subrange(1, grown.len() as int);
        lemma_line_at_push(lines1, line);
        assert(grown1 =~= lines1.push((line, 1)));
        lemma_run_sum_drop_first(lines);
        lemma_run_sum_nonneg(lines1);
        assert forall|i: int| 0 <= i < run_sum(lines) implies line_at(grown, i) == line_at(
            lines,
            i,
        ) by {
            if i >= lines.first().1 {
                assert(line_at(lines, i) == line_at(lines1, i - lines.first().1));
                assert(line_at(grown, i) == line_at(grown1, i - lines.first().1));
            }
        }
        assert(line_at(grown, run_sum(lines)) == line_at(grown1, run_sum(lines1)));
    }
}

impl Chunk {
    /// Creates an empty chunk, trivially well formed.
    pub fn new() -> (c: Chunk)
        ensures
            c@.code =~= Seq::<OpCode>::empty(),
            c@.lines =~= Seq::<(usize, usize)>::empty(),
            c@.constants =~= Seq::<ValueM>::empty(),
            chunk_wf(c@),
    {
        let c = Chunk { code: Vec::new(), lines: Vec::new(), constants: Vec::new() };
        proof {
            assert(c@.lines =~= Seq::<(usize, usize)>::empty());
            assert(c@.constants =~= Seq::<ValueM>::empty());
        }
        c
    }

    /// Appends one instruction, recording the source line it came from:
    /// the last run of the line table is extended when the line repeats,
    /// else a fresh run starts.  Every earlier instruction keeps its line.
    pub fn write(&mut self, op: OpCode, line: usize)
        requires
            lines_wf(old(self)@),
        ensures
            final(self)@.code == old(self)@.code.push(op),
            final(self)@.constants == old(self)@.constants,
            lines_wf(final(self)@),
            ({
                let lines = old(self)@.lines;
                if lines.len() > 0 && lines.last().0 == line && lines.last().1 < usize::MAX {
                    final(self)@.lines == lines.update(
                        lines.len() - 1,
                        (line, (lines.last().1 + 1) as usize),
                    )
                } else {
                    final(self)@.lines == lines.push((line, 1))
                }
            }),
            forall|i: int|
                0 <= i < old(self)@.code.len() ==> line_at(final(self)@.lines, i) == line_at(
                    old(self)@.lines,
                    i,
                ),
            line_at(final(self)@.lines, old(self)@.code.len() as int) == line,
    {
        let ghost old_lines = self@.lines;
        let ghost old_code_len = self@.code.len() as int;
        self.code.push(op);
        let n: usize = self.lines.len();
        if n > 0 && self.lines[n - 1].line == line && self.lines[n - 1].run_length < usize::MAX {
            let rl: usize = self.lines[n - 1].run_length;
            self.lines[n - 1] = LineEntry { line, run_length: rl + 1 };
            proof {
                assert(self@.lines =~= old_lines.update(
                    old_lines.len() - 1,
                    (old_lines.last().0, (old_lines.last().1 + 1) as usize),
                ));
                lemma_line_at_extend_last(old_lines);
            }
        } else {
            proof {
                if n > 0 {
                    lemma_run_sum_nonneg(old_lines.drop_last());
                    assert(old_lines.last().1 <= run_sum(old_lines));
                }
            }
            self.lines.push(LineEntry { line, run_length: 1 });
            proof {
                assert(self@.lines =~= old_lines.push((line, 1)));
                lemma_line_at_push(old_lines, line);
            }
        }
    }

    /// Appends a value to the constant pool and returns its index, or
    /// `None` when the pool already holds as many constants as an index
    /// byte can address.
    pub fn add_constant(&mut self, value: Value) -> (r: Option<u8>)
        ensures
            final(self)@.code == old(self)@.code,
            final(self)@.lines == old(self)@.lines,
            match r {
                Some(k) => {
                    &&& old(self)@.constants.len() < 256
                    &&& k as int == old(self)@.constants.len()
                    &&& final(self)@.constants == old(self)@.constants.push(value@)
                },
                None => {
                    &&& old(self)@.constants.len() >= 256
                    &&& final(self)@.constants == old(self)@.constants
                },
            },
    {
        if self.constants.len() >= 256 {
            return None;
        }
        let k: u8 = self.constants.len() as u8;
        let ghost vm = value@;
        self.constants.push(value);
        proof {
            assert(self@.constants =~= old(self)@.constants.push(vm));
        }
        Some(k)
    }

    /// Looks the source line of the instruction at `offset` up in the
    /// run-length encoded line table.
    pub fn line_of(&self, offset: usize) -> (l: usize)
        requires
            lines_wf(self@),
            offset < self@.code.len(),
        ensures
            l == line_at(self@.lines, offset as int),
    {
        let ghost lines = self@.lines;
        proof {
            assert(lines.subrange(0, lines.len() as int) =~= lines);
        }
        let n: usize = self.lines.len();
        let mut i: usize = 0;
        let mut rem: usize = offset;
        loop
            invariant
                n == lines.len(),
                i <= n,
                lines == self@.lines,
                (rem as int) < run_sum(lines.subrange(i as int, lines.len() as int)),
                line_at(lines, offset as int) == line_at(
                    lines.subrange(i as int, lines.len() as int),
                    rem as int,
                ),
            decreases lines.len() - i,
        {
            proof {
                if i == lines.len() {
                    assert(lines.subrange(i as int, lines.len() as int) =~= Seq::<(
                        usize,
                        usize,
                    )>::empty());
                    assert(false);
                }
            }
            let entry_line: usize = self.lines[i].line;
            let entry_run: usize = self.lines[i].run_length;
            proof {
                assert(lines.subrange(i as int, lines.len() as int).first() == (
                    entry_line,
                    entry_run,
                ));
            }
            if rem < entry_run {
                return entry_line;
            }
            proof {
                let rest = lines.subrange(i as int, lines.len() as int);
                lemma_run_sum_drop_first(rest);
                assert(rest.subrange(1, rest.len() as int) =~= lines.subrange(
                    i + 1,
                    lines.len() as int,
                ));
            }
            rem = rem - entry_run;
            i = i + 1;
        }
    }
}

} // verus!
