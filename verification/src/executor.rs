//! Running a command tree against a tape, one command at a time.
//!
//! The executor never touches the outside world. A host drives it: it calls
//! [`step`] again and again and does what the returned [`Action`] asks for.
//! [`run`] is such a host for input and output that are held in memory.

use crate::command::{lemma_loop_view, Command, Op};
use vstd::prelude::*;

verus! {

/// What the host has to do after a call of [`step`].
#[derive(Debug, Clone, Copy, PartialEq, Eq)]
pub enum Action {
    /// Nothing; call `step` again.
    Proceed,
    /// Write this unit to the output, then call `step` again.
    Write(u8),
    /// Read one unit from the input and hand it over with [`feed`].
    Read,
    /// The program has ended.
    Halt,
    /// The command would leave the tape; the run cannot go on.
    Fault,
}

/// How a run by [`run`] ended.
#[derive(Debug, Clone, Copy, PartialEq, Eq)]
pub enum Status {
    /// The program ended.
    Halted,
    /// A command would have left the tape.
    Faulted,
    /// The allowed number of steps was used up before the program ended.
    LimitReached,
}

/// What [`run`] reports: the units written, in order, the number of units
/// read, the number of steps taken, and how the run ended.
#[derive(Debug, PartialEq, Eq)]
pub struct Report {
    pub output: Vec<u8>,
    pub read: usize,
    pub steps: u64,
    pub status: Status,
}

/// The model of a [`Report`], together with the machine at the end.
pub struct Run {
    pub machine: Machine,
    pub output: Seq<u8>,
    pub read: nat,
    pub steps: nat,
    pub status: Status,
}

/// A command sequence and the index of the command in it that comes next.
pub struct FrameModel {
    pub ops: Seq<Op>,
    pub next: nat,
}

/// The state of a run: the frames of the sequences that are being executed,
/// outermost first, with the tape and the pointer.
///
/// Every frame but the last waits at the loop whose body the frame above it
/// executes.
pub struct Machine {
    pub frames: Seq<FrameModel>,
    pub cells: Seq<u32>,
    pub pointer: nat,
}

/// A cell after `Increment`: one more, modulo the width of a cell.
pub open spec fn incremented(cell: u32) -> u32 {
    ((cell + 1) % 0x1_0000_0000) as u32
}

/// A cell after `Decrement`: one less, modulo the width of a cell.
pub open spec fn decremented(cell: u32) -> u32 {
    ((cell - 1) % 0x1_0000_0000) as u32
}

/// The unit that `Output` writes for a cell: its low eight bits.
pub open spec fn unit_of(cell: u32) -> u8 {
    (cell % 256) as u8
}

/// The cell that `Input` stores for what the host has read: the unit itself,
/// or zero at the end of the input.
pub open spec fn cell_of(unit: Option<u8>) -> u32 {
    match unit {
        Some(u) => u as u32,
        None => 0,
    }
}

impl Machine {
    /// The machine at the start of `ops`.
    pub open spec fn start(ops: Seq<Op>, cells: Seq<u32>, pointer: nat) -> Machine {
        Machine { frames: seq![FrameModel { ops, next: 0 }], cells, pointer }
    }

    /// The innermost frame.
    pub open spec fn top(self) -> FrameModel {
        self.frames.last()
    }

    /// Whether the innermost sequence has been executed to its end.
    pub open spec fn at_end(self) -> bool {
        self.top().next >= self.top().ops.len()
    }

    /// The command that comes next, where the innermost sequence has one.
    pub open spec fn current(self) -> Op
        recommends
            !self.at_end(),
    {
        self.top().ops[self.top().next as int]
    }

    /// Whether the pointer is on the tape.
    pub open spec fn on_tape(self) -> bool {
        self.pointer < self.cells.len()
    }

    /// The cell under the pointer.
    pub open spec fn cell(self) -> u32
        recommends
            self.on_tape(),
    {
        self.cells[self.pointer as int]
    }

    /// This machine behind the current command.
    pub open spec fn advanced(self) -> Machine {
        Machine {
            frames: self.frames.update(
                self.frames.len() - 1,
                FrameModel { ops: self.top().ops, next: self.top().next + 1 },
            ),
            ..self
        }
    }

    /// This machine with `cell` under the pointer.
    pub open spec fn storing(self, cell: u32) -> Machine {
        Machine { cells: self.cells.update(self.pointer as int, cell), ..self }
    }

    /// This machine with the pointer at `pointer`.
    pub open spec fn pointing(self, pointer: nat) -> Machine {
        Machine { pointer, ..self }
    }

    /// This machine at the start of `body`, one frame deeper.
    pub open spec fn entered(self, body: Seq<Op>) -> Machine {
        Machine { frames: self.frames.push(FrameModel { ops: body, next: 0 }), ..self }
    }

    /// This machine without its innermost frame.
    pub open spec fn left(self) -> Machine {
        Machine { frames: self.frames.drop_last(), ..self }
    }

    /// Whether the machine waits for the host to read a unit.
    pub open spec fn awaits_input(self) -> bool {
        self.frames.len() > 0 && !self.at_end() && self.current() == Op::Input && self.on_tape()
    }

    /// One step: the machine after it, and what the host has to do.
    ///
    /// At the end of the outermost sequence the run has ended. At the end of
    /// a loop's body the machine goes back to the loop, which checks its
    /// cell again. A loop whose cell is zero is passed over; one whose cell
    /// is not zero is entered. A command that would move the pointer off the
    /// tape, or that needs a cell while the pointer is off the tape, is a
    /// fault. `Input` changes nothing by itself: the host reads, and
    /// [`Machine::fed`] stores.
    pub open spec fn step(self) -> (Machine, Action) {
        if self.frames.len() == 0 {
            (self, Action::Halt)
        } else if self.at_end() {
            if self.frames.len() == 1 {
                (self, Action::Halt)
            } else {
                (self.left(), Action::Proceed)
            }
        } else {
            match self.current() {
                Op::MoveRight => if self.pointer + 1 < self.cells.len() {
                    (self.pointing(self.pointer + 1).advanced(), Action::Proceed)
                } else {
                    (self, Action::Fault)
                },
                Op::MoveLeft => if 0 < self.pointer <= self.cells.len() {
                    (self.pointing((self.pointer - 1) as nat).advanced(), Action::Proceed)
                } else {
                    (self, Action::Fault)
                },
                Op::Increment => if self.on_tape() {
                    (self.storing(incremented(self.cell())).advanced(), Action::Proceed)
                } else {
                    (self, Action::Fault)
                },
                Op::Decrement => if self.on_tape() {
                    (self.storing(decremented(self.cell())).advanced(), Action::Proceed)
                } else {
                    (self, Action::Fault)
                },
                Op::Output => if self.on_tape() {
                    (self.advanced(), Action::Write(unit_of(self.cell())))
                } else {
                    (self, Action::Fault)
                },
                Op::Input => if self.on_tape() {
                    (self, Action::Read)
                } else {
                    (self, Action::Fault)
                },
                Op::Loop(body) => if !self.on_tape() {
                    (self, Action::Fault)
                } else if self.cell() != 0 {
                    (self.entered(body), Action::Proceed)
                } else {
                    (self.advanced(), Action::Proceed)
                },
            }
        }
    }

    /// The machine after the host has read `unit` for the `Input` that the
    /// machine waits at.
    pub open spec fn fed(self, unit: Option<u8>) -> Machine
        recommends
            self.awaits_input(),
    {
        self.storing(cell_of(unit)).advanced()
    }

    /// The run that ends at this machine without a step.
    pub open spec fn ended(self, status: Status) -> Run {
        Run { machine: self, output: Seq::empty(), read: 0, steps: 0, status }
    }

    /// What a host does that takes its input from `input` and calls `step`
    /// at most `limit` times. The call that finds the end of the program,
    /// or a fault, is no step of the run, but it is one of the calls.
    ///
    /// Each `Write` appends its unit to the output. Each `Read` takes the
    /// first unit that is left of `input`; once none is left, the end of the
    /// input is handed over instead.
    pub open spec fn run(self, input: Seq<u8>, limit: nat) -> Run
        decreases limit,
    {
        if limit == 0 {
            self.ended(Status::LimitReached)
        } else {
            let (next, action) = self.step();
            match action {
                Action::Halt => self.ended(Status::Halted),
                Action::Fault => self.ended(Status::Faulted),
                Action::Proceed => next.run(input, (limit - 1) as nat).after_step(
                    Seq::empty(),
                    0,
                ),
                Action::Write(unit) => next.run(input, (limit - 1) as nat).after_step(
                    seq![unit],
                    0,
                ),
                Action::Read => if input.len() > 0 {
                    self.fed(Some(input[0])).run(
                        input.drop_first(),
                        (limit - 1) as nat,
                    ).after_step(Seq::empty(), 1)
                } else {
                    self.fed(None).run(input, (limit - 1) as nat).after_step(Seq::empty(), 0)
                },
            }
        }
    }
}

impl Run {
    /// This run behind one step that wrote `written` and read `read` units.
    pub open spec fn after_step(self, written: Seq<u8>, read: nat) -> Run {
        Run {
            output: written + self.output,
            read: read + self.read,
            steps: self.steps + 1,
            ..self
        }
    }
}

/// Cell arithmetic is modular: `Increment` takes the largest value of a cell
/// to zero and adds one to every other value, `Decrement` takes zero to the
/// largest value and subtracts one from every other value, and each undoes
/// the other.
pub proof fn lemma_cell_arithmetic_wraps(cell: u32)
    ensures
        incremented(u32::MAX) == 0,
        decremented(0) == u32::MAX,
        cell < u32::MAX ==> incremented(cell) == cell + 1,
        cell > 0 ==> decremented(cell) == cell - 1,
        decremented(incremented(cell)) == cell,
        incremented(decremented(cell)) == cell,
{
}

/// A loop whose cell is zero when it is checked is passed over: the machine
/// stands behind the loop, no frame deeper, with the tape and the pointer as
/// they were, and the host has nothing to read or write.
pub proof fn lemma_zero_loop_is_passed_over(m: Machine, body: Seq<Op>)
    requires
        m.frames.len() > 0,
        !m.at_end(),
        m.current() == Op::Loop(body),
        m.on_tape(),
        m.cell() == 0,
    ensures
        m.step() == (m.advanced(), Action::Proceed),
        m.step().0.cells == m.cells,
        m.step().0.pointer == m.pointer,
        m.step().0.frames.len() == m.frames.len(),
        m.step().0.top().ops == m.top().ops,
        m.step().0.top().next == m.top().next + 1,
{
}

/// A program that is one loop, started on a cell that is zero, ends at once:
/// it leaves the tape and the pointer as they were, writes nothing and reads
/// nothing, whatever its body is.
pub proof fn lemma_zero_loop_runs_nothing(
    body: Seq<Op>,
    cells: Seq<u32>,
    pointer: nat,
    input: Seq<u8>,
    limit: nat,
)
    requires
        pointer < cells.len(),
        cells[pointer as int] == 0,
        limit >= 2,
    ensures
        ({
            let run = Machine::start(seq![Op::Loop(body)], cells, pointer).run(input, limit);
            &&& run.status == Status::Halted
            &&& run.machine.cells == cells
            &&& run.machine.pointer == pointer
            &&& run.output == Seq::<u8>::empty()
            &&& run.read == 0
            &&& run.steps == 1
        }),
{
    let m = Machine::start(seq![Op::Loop(body)], cells, pointer);
    lemma_zero_loop_is_passed_over(m, body);
    let after = m.advanced();
    assert(after.step() == (after, Action::Halt));
    assert(after.run(input, (limit - 1) as nat) == after.ended(Status::Halted));
    assert(m.run(input, limit) == after.ended(Status::Halted).after_step(Seq::empty(), 0));
    assert(Seq::<u8>::empty() + Seq::<u8>::empty() =~= Seq::<u8>::empty());
}

/// One frame of a [`Cursor`].
struct Frame<'a> {
    commands: &'a [Command],
    next: usize,
}

/// The place in a program at which a run stands.
pub struct Cursor<'a> {
    frames: Vec<Frame<'a>>,
}

impl<'a> View for Cursor<'a> {
    type V = Seq<FrameModel>;

    closed spec fn view(&self) -> Seq<FrameModel> {
        Seq::new(
            self.frames@.len(),
            |i: int|
                FrameModel {
                    ops: self.frames@[i].commands.deep_view(),
                    next: self.frames@[i].next as nat,
                },
        )
    }
}

impl<'a> Cursor<'a> {
    /// The cursor at the start of `program`.
    pub fn new(program: &'a [Command]) -> (cursor: Cursor<'a>)
        ensures
            cursor@ == seq![(FrameModel { ops: program.deep_view(), next: 0 })],
    {
        let mut frames: Vec<Frame<'a>> = Vec::new();
        frames.push(Frame { commands: program, next: 0 });
        let cursor = Cursor { frames };
        assert(cursor@ =~= seq![(FrameModel { ops: program.deep_view(), next: 0 })]);
        cursor
    }
}

/// The machine that a cursor, a tape and a pointer make up.
pub open spec fn machine_of(frames: Seq<FrameModel>, cells: Seq<u32>, pointer: usize) -> Machine {
    Machine { frames, cells, pointer: pointer as nat }
}

impl<'a> Cursor<'a> {
    /// Moves the innermost frame behind its current command.
    fn advance(&mut self)
        requires
            old(self)@.len() > 0,
            old(self)@.last().next < old(self)@.last().ops.len(),
        ensures
            final(self)@ == machine_of(old(self)@, Seq::empty(), 0).advanced().frames,
    {
        let last = self.frames.len() - 1;
        let commands = self.frames[last].commands;
        let next = self.frames[last].next;
        let len = commands.len();
        assert(self@.last().ops.len() == len);
        self.frames[last] = Frame { commands, next: next + 1 };
        assert(self@ =~= machine_of(old(self)@, Seq::empty(), 0).advanced().frames);
    }
}

/// Executes the command at which `cursor` stands, on the tape `memory` with
/// the pointer `pointer`, and says what the host has to do.
pub fn step(cursor: &mut Cursor, memory: &mut [u32], pointer: &mut usize) -> (action: Action)
    ensures
        (machine_of(final(cursor)@, final(memory)@, *final(pointer)), action) == machine_of(
            old(cursor)@,
            old(memory)@,
            *old(pointer),
        ).step(),
{
    let ghost before = machine_of(cursor@, memory@, *pointer);
    let depth = cursor.frames.len();
    if depth == 0 {
        return Action::Halt;
    }
    let commands = cursor.frames[depth - 1].commands;
    let next = cursor.frames[depth - 1].next;
    if next >= commands.len() {
        if depth == 1 {
            return Action::Halt;
        }
        cursor.frames.pop();
        assert(cursor@ =~= before.left().frames);
        return Action::Proceed;
    }
    let capacity = memory.len();
    let at = *pointer;
    match &commands[next] {
        Command::MoveRight => {
            if at < capacity && capacity - at > 1 {
                *pointer = at + 1;
                cursor.advance();
                Action::Proceed
            } else {
                Action::Fault
            }
        },
        Command::MoveLeft => {
            if 0 < at && at <= capacity {
                *pointer = at - 1;
                cursor.advance();
                Action::Proceed
            } else {
                Action::Fault
            }
        },
        Command::Increment => {
            if at < capacity {
                memory[at] = memory[at].wrapping_add(1);
                cursor.advance();
                Action::Proceed
            } else {
                Action::Fault
            }
        },
        Command::Decrement => {
            if at < capacity {
                memory[at] = memory[at].wrapping_sub(1);
                cursor.advance();
                Action::Proceed
            } else {
                Action::Fault
            }
        },
        Command::Output => {
            if at < capacity {
                let unit = (memory[at] % 256) as u8;
                cursor.advance();
                Action::Write(unit)
            } else {
                Action::Fault
            }
        },
        Command::Input => {
            if at < capacity {
                Action::Read
            } else {
                Action::Fault
            }
        },
        Command::Loop(body) => {
            if at >= capacity {
                Action::Fault
            } else if memory[at] != 0 {
                proof {
                    lemma_loop_view(*body);
                }
                cursor.frames.push(Frame { commands: body.as_slice(), next: 0 });
                assert(cursor@ =~= before.entered(body.deep_view()).frames);
                Action::Proceed
            } else {
                cursor.advance();
                Action::Proceed
            }
        },
    }
}

/// Hands the machine what the host has read for the `Input` at which it
/// waits: a unit, or `None` at the end of the input. Where the machine does
/// not wait for input, nothing changes and the result is `false`.
pub fn feed(cursor: &mut Cursor, memory: &mut [u32], pointer: usize, unit: Option<u8>) -> (taken:
    bool)
    ensures
        taken == machine_of(old(cursor)@, old(memory)@, pointer).awaits_input(),
        taken ==> machine_of(final(cursor)@, final(memory)@, pointer) == machine_of(
            old(cursor)@,
            old(memory)@,
            pointer,
        ).fed(unit),
        !taken ==> final(cursor)@ == old(cursor)@ && final(memory)@ == old(memory)@,
{
    let depth = cursor.frames.len();
    if depth == 0 {
        return false;
    }
    let commands = cursor.frames[depth - 1].commands;
    let next = cursor.frames[depth - 1].next;
    if next >= commands.len() || pointer >= memory.len() {
        return false;
    }
    match &commands[next] {
        Command::Input => {
            memory[pointer] = match unit {
                Some(u) => u as u32,
                None => 0,
            };
            cursor.advance();
            true
        },
        _ => false,
    }
}

/// Runs `commands` on the tape `memory` from the pointer `pointer`, with
/// `input` as the whole input, for at most `limit` steps.
pub fn run(
    commands: &[Command],
    memory: &mut [u32],
    pointer: &mut usize,
    input: &[u8],
    limit: u64,
) -> (report: Report)
    ensures
        ({
            let run = Machine::start(commands.deep_view(), old(memory)@, *old(pointer) as nat).run(
                input@,
                limit as nat,
            );
            &&& final(memory)@ == run.machine.cells
            &&& *final(pointer) == run.machine.pointer
            &&& report.output@ == run.output
            &&& report.read == run.read
            &&& report.steps == run.steps
            &&& report.status == run.status
        }),
{
    let ghost whole = Machine::start(commands.deep_view(), memory@, *pointer as nat).run(
        input@,
        limit as nat,
    );
    let mut cursor = Cursor::new(commands);
    let mut output: Vec<u8> = Vec::new();
    let mut read: usize = 0;
    let mut steps: u64 = 0;
    let mut left: u64 = limit;
    assert(input@.skip(0) =~= input@);
    assert(output@ + whole.output =~= whole.output);
    while left > 0
        invariant
            read <= input@.len(),
            steps + left == limit,
            whole.steps == steps + machine_of(cursor@, memory@, *pointer).run(
                input@.skip(read as int),
                left as nat,
            ).steps,
            whole == Machine::start(commands.deep_view(), old(memory)@, *old(pointer) as nat).run(
                input@,
                limit as nat,
            ),
            whole.machine.cells == machine_of(cursor@, memory@, *pointer).run(
                input@.skip(read as int),
                left as nat,
            ).machine.cells,
            whole.machine.pointer == machine_of(cursor@, memory@, *pointer).run(
                input@.skip(read as int),
                left as nat,
            ).machine.pointer,
            whole.output == output@ + machine_of(cursor@, memory@, *pointer).run(
                input@.skip(read as int),
                left as nat,
            ).output,
            whole.read == read + machine_of(cursor@, memory@, *pointer).run(
                input@.skip(read as int),
                left as nat,
            ).read,
            whole.status == machine_of(cursor@, memory@, *pointer).run(
                input@.skip(read as int),
                left as nat,
            ).status,
        decreases left,
    {
        let ghost here = machine_of(cursor@, memory@, *pointer);
        let ghost unread = input@.skip(read as int);
        let ghost written = output@;
        match step(&mut cursor, memory, pointer) {
            Action::Halt => {
                assert(written + Seq::<u8>::empty() =~= written);
                return Report { output, read, steps, status: Status::Halted };
            },
            Action::Fault => {
                assert(written + Seq::<u8>::empty() =~= written);
                return Report { output, read, steps, status: Status::Faulted };
            },
            Action::Proceed => {
                assert(written + (Seq::<u8>::empty() + machine_of(cursor@, memory@, *pointer).run(
                    unread,
                    (left - 1) as nat,
                ).output) =~= written + machine_of(cursor@, memory@, *pointer).run(
                    unread,
                    (left - 1) as nat,
                ).output);
            },
            Action::Write(unit) => {
                output.push(unit);
                let ghost rest = machine_of(cursor@, memory@, *pointer).run(
                    unread,
                    (left - 1) as nat,
                );
                assert(written + (seq![unit] + rest.output) =~= written.push(unit) + rest.output);
            },
            Action::Read => {
                if read < input.len() {
                    let unit = input[read];
                    feed(&mut cursor, memory, *pointer, Some(unit));
                    read = read + 1;
                    assert(unread.drop_first() =~= input@.skip(read as int));
                } else {
                    feed(&mut cursor, memory, *pointer, None);
                }
                assert(written + (Seq::<u8>::empty() + machine_of(cursor@, memory@, *pointer).run(
                    input@.skip(read as int),
                    (left - 1) as nat,
                ).output) =~= written + machine_of(cursor@, memory@, *pointer).run(
                    input@.skip(read as int),
                    (left - 1) as nat,
                ).output);
            },
        }
        left = left - 1;
        steps = steps + 1;
    }
    assert(output@ + Seq::<u8>::empty() =~= output@);
    Report { output, read, steps, status: Status::LimitReached }
}

} // verus!
