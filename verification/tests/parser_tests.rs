use bfrs::command::Command;
use bfrs::parser::parse;

fn tree(source: &str) -> Vec<Command> {
    parse(&mut source.chars())
}

fn loops_in(commands: &[Command]) -> usize {
    let mut count = 0;
    for command in commands {
        if let Command::Loop(body) = command {
            count += 1 + loops_in(body);
        }
    }
    count
}

#[test]
fn empty_source_yields_no_command() {
    assert_eq!(tree(""), vec![]);
}

#[test]
fn comment_yields_no_command() {
    assert_eq!(tree("hello world\n\t 0123 (){}!?"), vec![]);
}

#[test]
fn each_leaf_character_yields_its_command() {
    assert_eq!(
        tree("><+-.,"),
        vec![
            Command::MoveRight,
            Command::MoveLeft,
            Command::Increment,
            Command::Decrement,
            Command::Output,
            Command::Input,
        ]
    );
}

#[test]
fn unrecognized_characters_are_skipped() {
    assert_eq!(
        tree("add one: + then move > (done)"),
        vec![Command::Increment, Command::MoveRight]
    );
    assert_eq!(tree("é+ü"), vec![Command::Increment]);
}

#[test]
fn brackets_become_nested_loops() {
    assert_eq!(
        tree("+[-[>]<]."),
        vec![
            Command::Increment,
            Command::Loop(vec![
                Command::Decrement,
                Command::Loop(vec![Command::MoveRight]),
                Command::MoveLeft,
            ]),
            Command::Output,
        ]
    );
}

#[test]
fn empty_loop_has_empty_body() {
    assert_eq!(tree("[]"), vec![Command::Loop(vec![])]);
}

#[test]
fn addition_program_parses_to_its_tree() {
    assert_eq!(
        tree("++>+++++[<+>-]"),
        vec![
            Command::Increment,
            Command::Increment,
            Command::MoveRight,
            Command::Increment,
            Command::Increment,
            Command::Increment,
            Command::Increment,
            Command::Increment,
            Command::Loop(vec![
                Command::MoveLeft,
                Command::Increment,
                Command::MoveRight,
                Command::Decrement,
            ]),
        ]
    );
}

#[test]
fn well_bracketed_source_has_one_loop_per_open_bracket() {
    for source in ["", "+-", "[]", "[[]]", "[][]", "+[>[-]<[[.],]]-[x]"] {
        let opens = source.chars().filter(|c| *c == '[').count();
        assert_eq!(loops_in(&tree(source)), opens, "source {:?}", source);
    }
}

#[test]
fn unmatched_open_bracket_takes_the_rest_as_its_body() {
    assert_eq!(
        tree("+[->"),
        vec![
            Command::Increment,
            Command::Loop(vec![Command::Decrement, Command::MoveRight]),
        ]
    );
    assert_eq!(
        tree("[[+"),
        vec![Command::Loop(vec![Command::Loop(vec![Command::Increment])])]
    );
    assert_eq!(tree("["), vec![Command::Loop(vec![])]);
}

#[test]
fn stray_close_bracket_ends_the_level() {
    assert_eq!(tree("+]-"), vec![Command::Increment]);
    assert_eq!(tree("]"), vec![]);
    assert_eq!(tree("]["), vec![]);
}

#[test]
fn parse_reads_up_to_and_including_the_closing_bracket() {
    let mut chars = "+-]>.".chars();
    assert_eq!(
        parse(&mut chars),
        vec![Command::Increment, Command::Decrement]
    );
    assert_eq!(chars.as_str(), ">.");
    assert_eq!(
        parse(&mut chars),
        vec![Command::MoveRight, Command::Output]
    );
    assert_eq!(chars.as_str(), "");
    assert_eq!(parse(&mut chars), vec![]);
}

#[test]
fn parse_resumes_behind_a_nested_loop() {
    let mut chars = "[[-]+]<]rest".chars();
    assert_eq!(
        parse(&mut chars),
        vec![
            Command::Loop(vec![
                Command::Loop(vec![Command::Decrement]),
                Command::Increment,
            ]),
            Command::MoveLeft,
        ]
    );
    assert_eq!(chars.as_str(), "rest");
}
