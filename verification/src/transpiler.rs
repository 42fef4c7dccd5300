//! Translating source text to C, character by character.

use crate::command::Op;
use crate::parser::{
    balanced, commands_of, leaf_of, lemma_rest_after_len, lemma_rest_after_nested, rest_after,
    well_bracketed,
};
use std::str::Chars;
use vstd::prelude::*;
use vstd::std_specs::iter::IteratorSpec;
use vstd::string::StringExecFns;

verus! {

/// The C text that one source character becomes. A `[` opens a block that
/// runs while the current cell is not zero, a `]` closes one. A character
/// that is not recognized becomes nothing.
pub open spec fn fragment_of(c: char) -> Seq<char> {
    if c == '>' {
        "++p;"@
    } else if c == '<' {
        "--p;"@
    } else if c == '+' {
        "++*p;"@
    } else if c == '-' {
        "--*p;"@
    } else if c == '.' {
        "putchar(*p);"@
    } else if c == ',' {
        "*p=getchar();"@
    } else if c == '[' {
        "while(*p){"@
    } else if c == ']' {
        "}"@
    } else {
        Seq::empty()
    }
}

/// The C statements for the source text `s`: the fragments of its
/// characters, in order.
pub open spec fn c_text(s: Seq<char>) -> Seq<char>
    decreases s.len(),
{
    if s.len() == 0 {
        Seq::empty()
    } else {
        fragment_of(s[0]) + c_text(s.drop_first())
    }
}

/// The digits of `n` in base ten, without leading zeros.
pub open spec fn decimal(n: nat) -> Seq<char>
    decreases n,
{
    if n < 10 {
        seq!["0123456789"@[n as int]]
    } else {
        decimal(n / 10).push("0123456789"@[(n % 10) as int])
    }
}

/// The whole C program for the source text `s` and a tape of `capacity`
/// cells: the buffer, the pointer to its first cell, and `main` around the
/// statements.
pub open spec fn c_program(s: Seq<char>, capacity: nat) -> Seq<char> {
    "#include <stdio.h>\n int main(){char a["@ + decimal(capacity) + "]={0};char *p=a;"@ + c_text(s)
        + "}"@
}

/// The C statements for a command tree: a leaf becomes its fragment, a loop
/// becomes one block around the statements of its body.
pub open spec fn text_of(ops: Seq<Op>) -> Seq<char>
    decreases ops,
{
    if ops.len() == 0 {
        Seq::empty()
    } else {
        let first = match ops[0] {
            Op::MoveRight => "++p;"@,
            Op::MoveLeft => "--p;"@,
            Op::Increment => "++*p;"@,
            Op::Decrement => "--*p;"@,
            Op::Output => "putchar(*p);"@,
            Op::Input => "*p=getchar();"@,
            Op::Loop(body) => "while(*p){"@ + text_of(body) + "}"@,
        };
        first + text_of(ops.drop_first())
    }
}

/// The statements of a concatenation are those of its two parts.
pub proof fn lemma_text_of_concat(a: Seq<Op>, b: Seq<Op>)
    ensures
        text_of(a + b) == text_of(a) + text_of(b),
    decreases a.len(),
{
    if a.len() == 0 {
        assert(a + b =~= b);
        assert(text_of(a) + text_of(b) =~= text_of(b));
    } else {
        assert((a + b).drop_first() =~= a.drop_first() + b);
        assert((a + b)[0] == a[0]);
        lemma_text_of_concat(a.drop_first(), b);
        assert(text_of(a + b) =~= text_of(a) + text_of(b));
    }
}

/// The statements of a single command.
pub proof fn lemma_text_of_single(op: Op)
    ensures
        text_of(seq![op]) == match op {
            Op::MoveRight => "++p;"@,
            Op::MoveLeft => "--p;"@,
            Op::Increment => "++*p;"@,
            Op::Decrement => "--*p;"@,
            Op::Output => "putchar(*p);"@,
            Op::Input => "*p=getchar();"@,
            Op::Loop(body) => "while(*p){"@ + text_of(body) + "}"@,
        },
{
    assert(seq![op].drop_first() =~= Seq::<Op>::empty());
    assert(text_of(Seq::<Op>::empty()) =~= Seq::<char>::empty());
    assert(text_of(seq![op]) =~= text_of(seq![op]) + Seq::<char>::empty());
}

/// Where `depth` brackets are open and the brackets of `s` match, the
/// statements for `s` are those of the tree of its first level; with open
/// brackets, the `}` that ends that level and the statements for the rest
/// of `s` follow.
pub proof fn lemma_text_of_level(s: Seq<char>, depth: nat)
    requires
        balanced(s, depth),
    ensures
        depth == 0 ==> c_text(s) == text_of(commands_of(s)),
        depth > 0 ==> c_text(s) == text_of(commands_of(s)) + "}"@ + c_text(rest_after(s, 0)),
        depth > 0 ==> balanced(rest_after(s, 0), (depth - 1) as nat),
    decreases s.len(),
{
    if s.len() == 0 {
        assert(text_of(commands_of(s)) =~= Seq::<char>::empty());
    } else if s[0] == ']' {
        let t = s.drop_first();
        assert(text_of(commands_of(s)) =~= Seq::<char>::empty());
        assert(c_text(s) =~= text_of(commands_of(s)) + "}"@ + c_text(t));
    } else if s[0] == '[' {
        let t = s.drop_first();
        let u = rest_after(t, 0);
        let inner = commands_of(t);
        lemma_rest_after_len(t, 0);
        lemma_rest_after_nested(t, 0);
        lemma_text_of_level(t, depth + 1);
        lemma_text_of_level(u, depth);
        lemma_text_of_concat(seq![Op::Loop(inner)], commands_of(u));
        lemma_text_of_single(Op::Loop(inner));
        let open = "while(*p){"@;
        let close = "}"@;
        assert(c_text(s) =~= open + (text_of(inner) + close + c_text(u)));
        assert(text_of(commands_of(s)) =~= (open + text_of(inner) + close) + text_of(
            commands_of(u),
        ));
        if depth == 0 {
            assert(c_text(s) =~= text_of(commands_of(s)));
        } else {
            assert(c_text(s) =~= text_of(commands_of(s)) + close + c_text(rest_after(s, 0)));
        }
    } else {
        let t = s.drop_first();
        lemma_text_of_level(t, depth);
        match leaf_of(s[0]) {
            Some(op) => {
                lemma_text_of_concat(seq![op], commands_of(t));
                lemma_text_of_single(op);
                assert(text_of(seq![op]) == fragment_of(s[0]));
                if depth == 0 {
                    assert(c_text(s) =~= text_of(commands_of(s)));
                } else {
                    assert(c_text(s) =~= text_of(commands_of(s)) + "}"@ + c_text(
                        rest_after(s, 0),
                    ));
                }
            },
            None => {
                assert(fragment_of(s[0]) =~= Seq::<char>::empty());
                assert(c_text(s) =~= c_text(t));
            },
        }
    }
}

/// For source text whose brackets match, translating the characters one by
/// one gives the statements of the parsed tree: every `Loop` node is one
/// `while` block around the statements of its body.
pub proof fn lemma_translation_follows_tree(s: Seq<char>)
    requires
        well_bracketed(s),
    ensures
        c_text(s) == text_of(commands_of(s)),
{
    lemma_text_of_level(s, 0);
}

/// Appends to `out` the C statements for what is left of `program`, and
/// reads `program` to its end.
///
/// The brackets are translated one for one and are not checked: the
/// statements nest as C blocks only where the brackets of the source match.
///
/// `program` has to carry a measure of what is left of it, as every iterator
/// that `str::chars` makes does.
pub fn transpile_to_c(program: &mut Chars, out: &mut String)
    requires
        (*old(program)).decrease() is Some,
    ensures
        final(out)@ == old(out)@ + c_text((*old(program)).remaining()),
        (*final(program)).remaining().len() == 0,
{
    assert(out@ + Seq::<char>::empty() =~= out@);
    loop
        invariant_except_break
            out@ + c_text((*program).remaining()) == old(out)@ + c_text(
                (*old(program)).remaining(),
            ),
        invariant
            (*program).decrease() is Some,
        ensures
            out@ == old(out)@ + c_text((*old(program)).remaining()),
            (*program).remaining().len() == 0,
        decreases (*program).decrease()->0,
    {
        let ghost before = out@;
        let ghost text = (*program).remaining();
        match program.next() {
            None => {
                assert(before + Seq::<char>::empty() =~= before);
                break ;
            },
            Some(c) => {
                if c == '>' {
                    out.append("++p;");
                } else if c == '<' {
                    out.append("--p;");
                } else if c == '+' {
                    out.append("++*p;");
                } else if c == '-' {
                    out.append("--*p;");
                } else if c == '.' {
                    out.append("putchar(*p);");
                } else if c == ',' {
                    out.append("*p=getchar();");
                } else if c == '[' {
                    out.append("while(*p){");
                } else if c == ']' {
                    out.append("}");
                }
                assert(out@ =~= before + fragment_of(c));
                assert((before + fragment_of(c)) + c_text(text.drop_first()) =~= before + c_text(
                    text,
                ));
            },
        }
    }
}

/// The text of one decimal digit.
fn digit_text(d: usize) -> (text: &'static str)
    requires
        d < 10,
    ensures
        text@ == seq!["0123456789"@[d as int]],
{
    proof {
        reveal_strlit("0123456789");
        reveal_strlit("0");
        reveal_strlit("1");
        reveal_strlit("2");
        reveal_strlit("3");
        reveal_strlit("4");
        reveal_strlit("5");
        reveal_strlit("6");
        reveal_strlit("7");
        reveal_strlit("8");
        reveal_strlit("9");
    }
    let text = if d == 0 {
        "0"
    } else if d == 1 {
        "1"
    } else if d == 2 {
        "2"
    } else if d == 3 {
        "3"
    } else if d == 4 {
        "4"
    } else if d == 5 {
        "5"
    } else if d == 6 {
        "6"
    } else if d == 7 {
        "7"
    } else if d == 8 {
        "8"
    } else {
        "9"
    };
    assert(text@ =~= seq!["0123456789"@[d as int]]);
    text
}

/// Appends the decimal digits of `n` to `out`.
fn append_decimal(out: &mut String, n: usize)
    ensures
        final(out)@ == old(out)@ + decimal(n as nat),
    decreases n,
{
    if n >= 10 {
        append_decimal(out, n / 10);
    }
    let ghost before = out@;
    out.append(digit_text(n % 10));
    assert(out@ =~= old(out)@ + decimal(n as nat));
}

/// The whole C program for what is left of `program`, with a tape of
/// `capacity` cells. Reads `program` to its end.
///
/// `program` has to carry a measure of what is left of it, as every iterator
/// that `str::chars` makes does.
pub fn transpile_program(program: &mut Chars, capacity: usize) -> (text: String)
    requires
        (*old(program)).decrease() is Some,
    ensures
        text@ == c_program((*old(program)).remaining(), capacity as nat),
        (*final(program)).remaining().len() == 0,
{
    let mut text = String::from_str("#include <stdio.h>\n int main(){char a[");
    append_decimal(&mut text, capacity);
    text.append("]={0};char *p=a;");
    transpile_to_c(program, &mut text);
    text.append("}");
    text
}

} // verus!
