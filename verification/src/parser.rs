//! Turning source text into a command tree.

use crate::command::{
    count_loops, lemma_count_loops_concat, lemma_count_loops_single, lemma_loop_view, Command, Op,
};
use std::str::Chars;
use vstd::prelude::*;
use vstd::std_specs::iter::IteratorSpec;

verus! {

/// The leaf command that a character stands for, if it stands for one.
pub open spec fn leaf_of(c: char) -> Option<Op> {
    if c == '>' {
        Some(Op::MoveRight)
    } else if c == '<' {
        Some(Op::MoveLeft)
    } else if c == '+' {
        Some(Op::Increment)
    } else if c == '-' {
        Some(Op::Decrement)
    } else if c == '.' {
        Some(Op::Output)
    } else if c == ',' {
        Some(Op::Input)
    } else {
        None
    }
}

/// Whether a character means anything to the parser. Every other character
/// is a comment.
pub open spec fn is_recognized(c: char) -> bool {
    leaf_of(c) is Some || c == '[' || c == ']'
}

/// What is left of `s` once the nesting level that `s` starts in has been
/// read: the text behind the first `]` that is not matched by a `[` of `s`
/// itself, where `depth` counts the `[` of `s` that are still open. Without
/// such a `]` nothing is left.
pub open spec fn rest_after(s: Seq<char>, depth: nat) -> Seq<char>
    decreases s.len(),
{
    if s.len() == 0 {
        s
    } else if s[0] == '[' {
        rest_after(s.drop_first(), depth + 1)
    } else if s[0] == ']' {
        if depth == 0 {
            s.drop_first()
        } else {
            rest_after(s.drop_first(), (depth - 1) as nat)
        }
    } else {
        rest_after(s.drop_first(), depth)
    }
}

/// Reading a level never yields more text than it was given.
pub proof fn lemma_rest_after_len(s: Seq<char>, depth: nat)
    ensures
        rest_after(s, depth).len() <= s.len(),
        s.len() > 0 ==> rest_after(s, depth).len() < s.len(),
    decreases s.len(),
{
    if s.len() > 0 {
        if s[0] == '[' {
            lemma_rest_after_len(s.drop_first(), depth + 1);
        } else if s[0] == ']' {
            if depth > 0 {
                lemma_rest_after_len(s.drop_first(), (depth - 1) as nat);
            }
        } else {
            lemma_rest_after_len(s.drop_first(), depth);
        }
    }
}

/// The commands of the nesting level that `s` starts in.
///
/// A `[` opens a loop whose body is the level that starts behind it; the
/// level goes on behind the `]` that closes that body. A `]` or the end of
/// the text ends the level. Characters that are not recognized yield nothing.
pub open spec fn commands_of(s: Seq<char>) -> Seq<Op>
    decreases s.len(),
{
    if s.len() == 0 || s[0] == ']' {
        Seq::empty()
    } else if s[0] == '[' {
        proof {
            lemma_rest_after_len(s.drop_first(), 0);
        }
        seq![Op::Loop(commands_of(s.drop_first()))] + commands_of(rest_after(s.drop_first(), 0))
    } else {
        match leaf_of(s[0]) {
            Some(op) => seq![op] + commands_of(s.drop_first()),
            None => commands_of(s.drop_first()),
        }
    }
}

/// Behind a `[`, the enclosing level goes on where the level behind the
/// loop's body ends.
pub proof fn lemma_rest_after_nested(s: Seq<char>, depth: nat)
    ensures
        rest_after(s, depth + 1) == rest_after(rest_after(s, depth), 0),
    decreases s.len(),
{
    if s.len() > 0 {
        if s[0] == '[' {
            lemma_rest_after_nested(s.drop_first(), depth + 1);
        } else if s[0] == ']' {
            if depth > 0 {
                lemma_rest_after_nested(s.drop_first(), (depth - 1) as nat);
            }
        } else {
            lemma_rest_after_nested(s.drop_first(), depth);
        }
    }
}

/// The number of `[` in `s`.
pub open spec fn count_open(s: Seq<char>) -> nat
    decreases s.len(),
{
    if s.len() == 0 {
        0
    } else if s[0] == '[' {
        1 + count_open(s.drop_first())
    } else {
        count_open(s.drop_first())
    }
}

/// Whether the brackets of `s` match when `depth` of them are already open:
/// no `]` comes without an open `[`, and none stays open at the end.
pub open spec fn balanced(s: Seq<char>, depth: nat) -> bool
    decreases s.len(),
{
    if s.len() == 0 {
        depth == 0
    } else if s[0] == '[' {
        balanced(s.drop_first(), depth + 1)
    } else if s[0] == ']' {
        depth > 0 && balanced(s.drop_first(), (depth - 1) as nat)
    } else {
        balanced(s.drop_first(), depth)
    }
}

/// Whether every `[` of `s` has its `]` and every `]` its `[`.
pub open spec fn well_bracketed(s: Seq<char>) -> bool {
    balanced(s, 0)
}

/// Text whose brackets match is read to its end.
pub proof fn lemma_balanced_read_whole(s: Seq<char>, depth: nat)
    requires
        balanced(s, depth),
    ensures
        rest_after(s, depth).len() == 0,
    decreases s.len(),
{
    if s.len() > 0 {
        if s[0] == '[' {
            lemma_balanced_read_whole(s.drop_first(), depth + 1);
        } else if s[0] == ']' {
            lemma_balanced_read_whole(s.drop_first(), (depth - 1) as nat);
        } else {
            lemma_balanced_read_whole(s.drop_first(), depth);
        }
    }
}

/// Every `[` that is read becomes exactly one `Loop`: the loops of a level
/// and the `[` of the text left behind it add up to the `[` of the text.
pub proof fn lemma_loops_of_level(s: Seq<char>)
    ensures
        count_loops(commands_of(s)) + count_open(rest_after(s, 0)) == count_open(s),
    decreases s.len(),
{
    if s.len() == 0 {
    } else if s[0] == ']' {
    } else if s[0] == '[' {
        let t = s.drop_first();
        let u = rest_after(t, 0);
        let inner = commands_of(t);
        lemma_rest_after_len(t, 0);
        lemma_rest_after_nested(t, 0);
        lemma_loops_of_level(t);
        lemma_loops_of_level(u);
        lemma_count_loops_concat(seq![Op::Loop(inner)], commands_of(u));
        lemma_count_loops_single(Op::Loop(inner));
    } else {
        let t = s.drop_first();
        lemma_loops_of_level(t);
        match leaf_of(s[0]) {
            Some(op) => {
                lemma_count_loops_concat(seq![op], commands_of(t));
                lemma_count_loops_single(op);
            },
            None => {},
        }
    }
}

/// Text without a recognized character yields no command.
pub proof fn lemma_comment_yields_nothing(s: Seq<char>)
    requires
        forall|i: int| 0 <= i < s.len() ==> !is_recognized(#[trigger] s[i]),
    ensures
        commands_of(s) == Seq::<Op>::empty(),
    decreases s.len(),
{
    if s.len() > 0 {
        let t = s.drop_first();
        assert(!is_recognized(s[0]));
        assert forall|i: int| 0 <= i < t.len() implies !is_recognized(#[trigger] t[i]) by {
            assert(t[i] == s[i + 1]);
        }
        lemma_comment_yields_nothing(t);
    }
}

/// In text whose brackets match, the tree has as many `Loop` nodes as the
/// text has `[`.
pub proof fn lemma_one_loop_per_open_bracket(s: Seq<char>)
    requires
        well_bracketed(s),
    ensures
        count_loops(commands_of(s)) == count_open(s),
{
    lemma_balanced_read_whole(s, 0);
    lemma_loops_of_level(s);
}

/// Reads one nesting level from `program`: up to and including the `]` that
/// closes it, or to the end of the text where no `]` closes it, and returns
/// the commands of that level.
///
/// Brackets that do not match are no error. A `[` that is never closed
/// takes the rest of the text as its body, and a `]` that closes nothing
/// ends the level it stands in: called on a whole source text, `parse`
/// yields the program up to the first such `]`.
///
/// `program` has to carry a measure of what is left of it, as every iterator
/// that `str::chars` makes does.
pub fn parse(program: &mut Chars) -> (commands: Vec<Command>)
    requires
        (*old(program)).decrease() is Some,
    ensures
        commands.deep_view() == commands_of((*old(program)).remaining()),
        (*final(program)).remaining() == rest_after((*old(program)).remaining(), 0),
        (*final(program)).decrease() is Some,
        (*final(program)).remaining().len() > 0 ==> (*final(program)).decrease()->0 <= (*old(
            program,
        )).decrease()->0,
    decreases (*old(program)).decrease()->0,
{
    let mut commands: Vec<Command> = Vec::new();
    assert(commands.deep_view() =~= Seq::<Op>::empty());
    let ghost mut bound: nat = (*program).decrease()->0;
    loop
        invariant_except_break
            commands.deep_view() + commands_of((*program).remaining()) == commands_of(
                (*old(program)).remaining(),
            ),
            rest_after((*program).remaining(), 0) == rest_after((*old(program)).remaining(), 0),
        invariant
            (*program).decrease() is Some,
            (*program).remaining().len() > 0 ==> (*program).decrease()->0 <= bound,
            bound <= (*old(program)).decrease()->0,
        ensures
            commands.deep_view() == commands_of((*old(program)).remaining()),
            (*program).remaining() == rest_after((*old(program)).remaining(), 0),
        decreases bound,
    {
        let ghost before = commands.deep_view();
        let ghost text = (*program).remaining();
        match program.next() {
            None => {
                assert(before + Seq::<Op>::empty() =~= before);
                break ;
            },
            Some(c) => {
                proof {
                    bound = (*program).decrease()->0;
                }
                if c == ']' {
                    assert(before + Seq::<Op>::empty() =~= before);
                    break ;
                } else if c == '[' {
                    let body = parse(program);
                    proof {
                        lemma_loop_view(body);
                        lemma_rest_after_nested(text.drop_first(), 0);
                        lemma_rest_after_len(text.drop_first(), 0);
                    }
                    commands.push(Command::Loop(body));
                    assert(commands.deep_view() =~= before.push(Op::Loop(body.deep_view())));
                    assert(before.push(Op::Loop(body.deep_view())) + commands_of(
                        (*program).remaining(),
                    ) =~= before + commands_of(text));
                } else {
                    if c == '>' {
                        commands.push(Command::MoveRight);
                    } else if c == '<' {
                        commands.push(Command::MoveLeft);
                    } else if c == '+' {
                        commands.push(Command::Increment);
                    } else if c == '-' {
                        commands.push(Command::Decrement);
                    } else if c == '.' {
                        commands.push(Command::Output);
                    } else if c == ',' {
                        commands.push(Command::Input);
                    }
                    proof {
                        if let Some(op) = leaf_of(c) {
                            assert(commands.deep_view() =~= before.push(op));
                            assert(before.push(op) + commands_of(text.drop_first()) =~= before
                                + commands_of(text));
                        }
                    }
                }
            },
        }
    }
    commands
}

} // verus!
