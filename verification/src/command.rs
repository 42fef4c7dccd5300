//! The command tree of a program and its mathematical model.

use vstd::prelude::*;

verus! {

/// One node of a parsed program.
///
/// Every variant but `Loop` is a leaf; a `Loop` owns the commands of its body.
#[derive(Debug, PartialEq, Eq)]
pub enum Command {
    MoveRight,
    MoveLeft,
    Increment,
    Decrement,
    Output,
    Input,
    Loop(Vec<Command>),
}

/// The mathematical model of a [`Command`]: the same tree over sequences.
pub enum Op {
    MoveRight,
    MoveLeft,
    Increment,
    Decrement,
    Output,
    Input,
    Loop(Seq<Op>),
}

/// The model of one command.
pub open spec fn op_of(c: Command) -> Op
    decreases c,
{
    match c {
        Command::MoveRight => Op::MoveRight,
        Command::MoveLeft => Op::MoveLeft,
        Command::Increment => Op::Increment,
        Command::Decrement => Op::Decrement,
        Command::Output => Op::Output,
        Command::Input => Op::Input,
        Command::Loop(body) => Op::Loop(
            Seq::new(
                body@.len(),
                |i: int|
                    if 0 <= i < body@.len() {
                        op_of(body@[i])
                    } else {
                        arbitrary()
                    },
            ),
        ),
    }
}

impl DeepView for Command {
    type V = Op;

    open spec fn deep_view(&self) -> Op {
        op_of(*self)
    }
}

/// The model of a loop is the loop over the model of its body.
pub proof fn lemma_loop_view(body: Vec<Command>)
    ensures
        Command::Loop(body).deep_view() == Op::Loop(body.deep_view()),
{
    assert(Command::Loop(body).deep_view()->Loop_0 =~= body.deep_view());
}

/// The number of `Loop` nodes in a sequence of commands, at every depth.
pub open spec fn count_loops(ops: Seq<Op>) -> nat
    decreases ops,
{
    if ops.len() == 0 {
        0
    } else {
        let first: nat = match ops[0] {
            Op::Loop(body) => 1 + count_loops(body),
            _ => 0,
        };
        first + count_loops(ops.drop_first())
    }
}

/// The loops of a single command: one more than those of its body for a
/// loop, none for a leaf.
pub proof fn lemma_count_loops_single(op: Op)
    ensures
        count_loops(seq![op]) == match op {
            Op::Loop(body) => 1 + count_loops(body),
            _ => 0,
        },
{
    assert(seq![op].drop_first() =~= Seq::<Op>::empty());
    assert(count_loops(Seq::<Op>::empty()) == 0);
}

/// The loops of a concatenation are the loops of its two parts.
pub proof fn lemma_count_loops_concat(a: Seq<Op>, b: Seq<Op>)
    ensures
        count_loops(a + b) == count_loops(a) + count_loops(b),
    decreases a.len(),
{
    if a.len() == 0 {
        assert(a + b =~= b);
    } else {
        assert((a + b).drop_first() =~= a.drop_first() + b);
        lemma_count_loops_concat(a.drop_first(), b);
    }
}

} // verus!
