//! How runs compose.
//!
//! The executor takes one step at a time and keeps its place in a stack of
//! frames. The laws of this file read it as the recursive interpreter it
//! stands for: a sequence runs its parts one after the other, and a loop
//! runs its body and then itself again as long as its cell is not zero.

use crate::command::Op;
use crate::executor::{Action, FrameModel, Machine, Run, Status};
use vstd::prelude::*;

verus! {

impl Run {
    /// This run behind the run `first`.
    pub open spec fn after(self, first: Run) -> Run {
        Run {
            output: first.output + self.output,
            read: first.read + self.read,
            steps: first.steps + self.steps,
            ..self
        }
    }

    /// This run with `machine` in place of its machine.
    pub open spec fn at(self, machine: Machine) -> Run {
        Run { machine, ..self }
    }

    /// Whether two runs end alike: on the same tape, at the same pointer,
    /// with the same output, the same number of units read and of steps
    /// taken, and the same status. Only the frames may differ.
    pub open spec fn same_result(self, other: Run) -> bool {
        &&& self.machine.cells == other.machine.cells
        &&& self.machine.pointer == other.machine.pointer
        &&& self.output == other.output
        &&& self.read == other.read
        &&& self.steps == other.steps
        &&& self.status == other.status
    }
}

impl Machine {
    /// Whether the machine has a frame and stands within its outermost
    /// sequence or at its end.
    pub open spec fn tidy(self) -> bool {
        self.frames.len() > 0 && self.frames[0].next <= self.frames[0].ops.len()
    }

    /// This machine as a part of a larger one: `below` holds the frames
    /// around it, and its outermost sequence stands between `before` and
    /// `after`.
    pub open spec fn within(
        self,
        below: Seq<FrameModel>,
        before: Seq<Op>,
        after: Seq<Op>,
    ) -> Machine {
        Machine {
            frames: below + self.frames.update(
                0,
                FrameModel {
                    ops: before + self.frames[0].ops + after,
                    next: before.len() + self.frames[0].next,
                },
            ),
            ..self
        }
    }
}

/// A step that does not find the end of the program is the same step within
/// a larger machine.
pub proof fn lemma_step_within(
    m: Machine,
    below: Seq<FrameModel>,
    before: Seq<Op>,
    after: Seq<Op>,
)
    requires
        m.tidy(),
        m.step().1 != Action::Halt,
    ensures
        m.within(below, before, after).step() == (
            m.step().0.within(below, before, after),
            m.step().1,
        ),
        m.step().0.tidy(),
        m.step().0.frames[0].ops == m.frames[0].ops,
{
    let w = m.within(below, before, after);
    let (m2, act) = m.step();
    let w2 = m2.within(below, before, after);
    let depth = m.frames.len();
    assert(w.frames.len() == below.len() + depth);
    if depth == 1 {
        assert(w.top().ops == before + m.top().ops + after);
        assert(w.top().next == before.len() + m.top().next);
        assert(!m.at_end());
        assert(!w.at_end());
        assert(w.current() == m.current());
    } else {
        assert(w.top() == m.top());
        assert(w.at_end() == m.at_end());
    }
    if m.at_end() {
        assert(w.step().0.frames =~= w2.frames);
    } else {
        assert(w.current() == m.current());
        let moved = m.advanced();
        assert(w.advanced().frames =~= moved.within(below, before, after).frames);
        match m.current() {
            Op::Loop(body) => {
                assert(w.entered(body).frames =~= m.entered(body).within(
                    below,
                    before,
                    after,
                ).frames);
            },
            _ => {},
        }
        assert(w.step().0.frames =~= w2.frames);
    }
    assert(w.step().0.cells == w2.cells);
    assert(w.step().0.pointer == w2.pointer);
    assert(w.step().1 == act);
}

/// Handing a unit to a machine that waits for one is the same within a
/// larger machine.
pub proof fn lemma_fed_within(
    m: Machine,
    unit: Option<u8>,
    below: Seq<FrameModel>,
    before: Seq<Op>,
    after: Seq<Op>,
)
    requires
        m.tidy(),
        m.awaits_input(),
    ensures
        m.within(below, before, after).awaits_input(),
        m.within(below, before, after).fed(unit) == m.fed(unit).within(below, before, after),
        m.fed(unit).tidy(),
        m.fed(unit).frames[0].ops == m.frames[0].ops,
{
    let w = m.within(below, before, after);
    let depth = m.frames.len();
    assert(w.frames.len() == below.len() + depth);
    if depth == 1 {
        assert(w.top().ops == before + m.top().ops + after);
        assert(w.top().next == before.len() + m.top().next);
        assert(w.current() == m.current());
    } else {
        assert(w.top() == m.top());
    }
    assert(w.fed(unit).frames =~= m.fed(unit).within(below, before, after).frames);
}

/// A run within a larger machine: as long as the run does not end, the
/// larger machine does what the run does; where the run ends, the larger
/// machine goes on from there with the steps that are left.
pub proof fn lemma_run_within(
    m: Machine,
    input: Seq<u8>,
    limit: nat,
    below: Seq<FrameModel>,
    before: Seq<Op>,
    after: Seq<Op>,
)
    requires
        m.tidy(),
    ensures
        ({
            let inner = m.run(input, limit);
            let outer = m.within(below, before, after).run(input, limit);
            let end = inner.machine.within(below, before, after);
            &&& inner.machine.tidy()
            &&& inner.machine.frames[0].ops == m.frames[0].ops
            &&& inner.read <= input.len()
            &&& inner.steps <= limit
            &&& inner.status == Status::Halted ==> {
                &&& inner.steps < limit
                &&& inner.machine.frames.len() == 1
                &&& inner.machine.frames[0].next == inner.machine.frames[0].ops.len()
                &&& outer == end.run(
                    input.skip(inner.read as int),
                    (limit - inner.steps) as nat,
                ).after(inner)
            }
            &&& inner.status != Status::Halted ==> outer == inner.at(end)
        }),
    decreases limit,
{
    let w = m.within(below, before, after);
    let inner = m.run(input, limit);
    let outer = w.run(input, limit);
    let none = Seq::<u8>::empty();
    if limit == 0 {
    } else {
        let (m2, act) = m.step();
        match act {
            Action::Halt => {
                assert(input.skip(0) =~= input);
                assert(none + outer.output =~= outer.output);
                assert(outer == w.run(input.skip(0), limit).after(inner));
            },
            Action::Fault => {
                lemma_step_within(m, below, before, after);
            },
            Action::Proceed => {
                lemma_step_within(m, below, before, after);
                lemma_run_within(m2, input, (limit - 1) as nat, below, before, after);
                let i2 = m2.run(input, (limit - 1) as nat);
                let o2 = m2.within(below, before, after).run(input, (limit - 1) as nat);
                assert(inner == i2.after_step(none, 0));
                assert(outer == o2.after_step(none, 0));
                lemma_after_step_after(
                    i2,
                    o2,
                    inner,
                    outer,
                    input,
                    limit,
                    none,
                    0,
                    below,
                    before,
                    after,
                );
            },
            Action::Write(unit) => {
                lemma_step_within(m, below, before, after);
                lemma_run_within(m2, input, (limit - 1) as nat, below, before, after);
                let i2 = m2.run(input, (limit - 1) as nat);
                let o2 = m2.within(below, before, after).run(input, (limit - 1) as nat);
                assert(inner == i2.after_step(seq![unit], 0));
                assert(outer == o2.after_step(seq![unit], 0));
                lemma_after_step_after(
                    i2,
                    o2,
                    inner,
                    outer,
                    input,
                    limit,
                    seq![unit],
                    0,
                    below,
                    before,
                    after,
                );
            },
            Action::Read => {
                lemma_step_within(m, below, before, after);
                assert(m.awaits_input());
                if input.len() > 0 {
                    let unit = Some(input[0]);
                    let rest = input.drop_first();
                    lemma_fed_within(m, unit, below, before, after);
                    let m3 = m.fed(unit);
                    lemma_run_within(m3, rest, (limit - 1) as nat, below, before, after);
                    let i2 = m3.run(rest, (limit - 1) as nat);
                    let o2 = m3.within(below, before, after).run(rest, (limit - 1) as nat);
                    assert(inner == i2.after_step(none, 1));
                    assert(outer == o2.after_step(none, 1));
                    assert(rest.skip(i2.read as int) =~= input.skip((i2.read + 1) as int));
                    lemma_after_step_after(
                        i2,
                        o2,
                        inner,
                        outer,
                        rest,
                        limit,
                        none,
                        1,
                        below,
                        before,
                        after,
                    );
                } else {
                    lemma_fed_within(m, None, below, before, after);
                    let m3 = m.fed(None);
                    lemma_run_within(m3, input, (limit - 1) as nat, below, before, after);
                    let i2 = m3.run(input, (limit - 1) as nat);
                    let o2 = m3.within(below, before, after).run(input, (limit - 1) as nat);
                    assert(inner == i2.after_step(none, 0));
                    assert(outer == o2.after_step(none, 0));
                    lemma_after_step_after(
                        i2,
                        o2,
                        inner,
                        outer,
                        input,
                        limit,
                        none,
                        0,
                        below,
                        before,
                        after,
                    );
                }
            },
        }
    }
}

/// The step of `lemma_run_within` that puts one step in front of both runs.
proof fn lemma_after_step_after(
    i2: Run,
    o2: Run,
    inner: Run,
    outer: Run,
    rest: Seq<u8>,
    limit: nat,
    written: Seq<u8>,
    read: nat,
    below: Seq<FrameModel>,
    before: Seq<Op>,
    after: Seq<Op>,
)
    requires
        limit > 0,
        i2.steps <= limit - 1,
        inner == i2.after_step(written, read),
        outer == o2.after_step(written, read),
        i2.status == Status::Halted ==> i2.steps < limit - 1 && o2 == i2.machine.within(
            below,
            before,
            after,
        ).run(rest.skip(i2.read as int), (limit - 1 - i2.steps) as nat).after(i2),
        i2.status != Status::Halted ==> o2 == i2.at(i2.machine.within(below, before, after)),
    ensures
        inner.status == Status::Halted ==> outer == inner.machine.within(
            below,
            before,
            after,
        ).run(rest.skip(i2.read as int), (limit - inner.steps) as nat).after(inner),
        inner.status != Status::Halted ==> outer == inner.at(
            inner.machine.within(below, before, after),
        ),
{
    if i2.status == Status::Halted {
        let tail = i2.machine.within(below, before, after).run(
            rest.skip(i2.read as int),
            (limit - 1 - i2.steps) as nat,
        );
        assert(written + (i2.output + tail.output) =~= (written + i2.output) + tail.output);
        assert(outer == tail.after(inner));
    }
}

/// A machine that stands at the end of its only frame has ended.
pub proof fn lemma_run_at_end(m: Machine, input: Seq<u8>, limit: nat)
    requires
        m.frames.len() == 1,
        m.at_end(),
        limit > 0,
    ensures
        m.run(input, limit) == m.ended(Status::Halted),
{
}

/// A sequence runs its parts one after the other: the run of `first + second`
/// is the run of `first` and, where that ends within the limit, behind it
/// the run of `second` on the tape, the pointer, the input and the steps
/// that `first` leaves.
pub proof fn lemma_run_sequence(
    first: Seq<Op>,
    second: Seq<Op>,
    cells: Seq<u32>,
    pointer: nat,
    input: Seq<u8>,
    limit: nat,
)
    ensures
        ({
            let whole = Machine::start(first + second, cells, pointer).run(input, limit);
            let head = Machine::start(first, cells, pointer).run(input, limit);
            let tail = Machine::start(second, head.machine.cells, head.machine.pointer).run(
                input.skip(head.read as int),
                (limit - head.steps) as nat,
            );
            &&& head.read <= input.len()
            &&& head.steps <= limit
            &&& head.status == Status::Halted ==> whole.same_result(tail.after(head))
            &&& head.status != Status::Halted ==> whole.same_result(head)
        }),
{
    let none_below = Seq::<FrameModel>::empty();
    let no_ops = Seq::<Op>::empty();
    let a = Machine::start(first, cells, pointer);
    let head = a.run(input, limit);
    assert(first + second =~= no_ops + first + second);
    assert(Machine::start(first + second, cells, pointer).frames =~= a.within(
        none_below,
        no_ops,
        second,
    ).frames);
    lemma_run_within(a, input, limit, none_below, no_ops, second);
    if head.status == Status::Halted {
        let left = (limit - head.steps) as nat;
        let unread = input.skip(head.read as int);
        let b = Machine::start(second, head.machine.cells, head.machine.pointer);
        let tail = b.run(unread, left);
        assert(first + second =~= first + second + no_ops);
        assert(head.machine.within(none_below, no_ops, second).frames =~= b.within(
            none_below,
            first,
            no_ops,
        ).frames);
        assert(head.machine.within(none_below, no_ops, second) == b.within(
            none_below,
            first,
            no_ops,
        ));
        lemma_run_within(b, unread, left, none_below, first, no_ops);
        if tail.status == Status::Halted {
            let end = tail.machine.within(none_below, first, no_ops);
            assert(end.frames.len() == 1);
            assert(end.at_end());
            lemma_run_at_end(
                end,
                unread.skip(tail.read as int),
                (left - tail.steps) as nat,
            );
            assert(tail.output + Seq::<u8>::empty() =~= tail.output);
        }
    }
}

/// A loop whose cell is not zero runs its body and then itself again: the
/// step that enters the body, the run of the body, the step that goes back
/// to the loop, and the run of the same loop on the tape, the pointer, the
/// input and the steps that the body leaves.
pub proof fn lemma_run_loop(
    body: Seq<Op>,
    cells: Seq<u32>,
    pointer: nat,
    input: Seq<u8>,
    limit: nat,
)
    requires
        pointer < cells.len(),
        cells[pointer as int] != 0,
        limit > 0,
    ensures
        ({
            let whole = Machine::start(seq![Op::Loop(body)], cells, pointer).run(input, limit);
            let round = Machine::start(body, cells, pointer).run(input, (limit - 1) as nat);
            let again = Machine::start(
                seq![Op::Loop(body)],
                round.machine.cells,
                round.machine.pointer,
            ).run(input.skip(round.read as int), (limit - round.steps - 2) as nat);
            let none = Seq::<u8>::empty();
            &&& round.read <= input.len()
            &&& round.status == Status::Halted ==> round.steps + 2 <= limit
            &&& round.status == Status::Halted ==> whole.same_result(
                again.after_step(none, 0).after(round).after_step(none, 0),
            )
            &&& round.status != Status::Halted ==> whole.same_result(round.after_step(none, 0))
        }),
{
    let none = Seq::<u8>::empty();
    let no_ops = Seq::<Op>::empty();
    let looping = seq![Op::Loop(body)];
    let m0 = Machine::start(looping, cells, pointer);
    let below = seq![FrameModel { ops: looping, next: 0 }];
    let b = Machine::start(body, cells, pointer);
    let round = b.run(input, (limit - 1) as nat);
    assert(m0.step() == (m0.entered(body), Action::Proceed));
    assert(body =~= no_ops + body + no_ops);
    assert(m0.entered(body).frames =~= b.within(below, no_ops, no_ops).frames);
    assert(m0.entered(body) == b.within(below, no_ops, no_ops));
    lemma_run_within(b, input, (limit - 1) as nat, below, no_ops, no_ops);
    if round.status == Status::Halted {
        let end = round.machine.within(below, no_ops, no_ops);
        let left = (limit - 1 - round.steps) as nat;
        let unread = input.skip(round.read as int);
        assert(end.frames.len() == 2);
        assert(end.at_end());
        let back = Machine::start(looping, round.machine.cells, round.machine.pointer);
        assert(end.left().frames =~= back.frames);
        assert(end.step() == (back, Action::Proceed));
        assert(end.run(unread, left) == back.run(unread, (left - 1) as nat).after_step(none, 0));
    }
}

} // verus!
