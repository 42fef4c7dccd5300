use bfrs::command::Command;
use bfrs::executor::{feed, run, step, Action, Cursor, Report, Status};
use bfrs::parser::parse;

fn tree(source: &str) -> Vec<Command> {
    parse(&mut source.chars())
}

fn run_on(source: &str, memory: &mut [u32], input: &[u8], limit: u64) -> (Report, usize) {
    let commands = tree(source);
    let mut pointer = 0;
    let report = run(&commands, memory, &mut pointer, input, limit);
    (report, pointer)
}

#[test]
fn addition_by_loop_leaves_the_sum_in_the_first_cell() {
    let mut memory = vec![0u32; 2];
    let (report, pointer) = run_on("++>+++++[<+>-]", &mut memory, &[], 1000);
    assert_eq!(report.status, Status::Halted);
    assert_eq!(memory, vec![7, 0]);
    assert_eq!(pointer, 1);
    assert_eq!(report.output, Vec::<u8>::new());
    assert_eq!(report.read, 0);
}

#[test]
fn addition_by_loop_works_on_the_default_tape() {
    let mut memory = vec![0u32; 30000];
    let (report, _) = run_on("++>+++++[<+>-]", &mut memory, &[], 1000);
    assert_eq!(report.status, Status::Halted);
    assert_eq!(memory[0], 7);
    assert_eq!(memory[1], 0);
    assert!(memory[2..].iter().all(|cell| *cell == 0));
}

#[test]
fn input_then_output_echoes_one_unit() {
    let mut memory = vec![0u32; 1];
    let (report, _) = run_on(",.", &mut memory, &[65], 100);
    assert_eq!(report.status, Status::Halted);
    assert_eq!(report.output, vec![65]);
    assert_eq!(report.read, 1);
    assert_eq!(memory, vec![65]);
}

#[test]
fn clearing_loop_runs_once_per_unit_of_its_cell() {
    let commands = tree("[-]");
    let mut memory = vec![5u32];
    let mut pointer = 0;
    let mut cursor = Cursor::new(&commands);
    let mut decrements = 0;
    let mut steps = 0;
    loop {
        let before = memory[0];
        match step(&mut cursor, &mut memory, &mut pointer) {
            Action::Proceed => {
                steps += 1;
                if memory[0] != before {
                    assert_eq!(memory[0], before - 1);
                    decrements += 1;
                }
            }
            Action::Halt => break,
            other => panic!("unexpected action {:?}", other),
        }
    }
    assert_eq!(decrements, 5);
    assert_eq!(steps, 16);
    assert_eq!(memory, vec![0]);
    assert_eq!(pointer, 0);
}

#[test]
fn clearing_loop_writes_nothing() {
    let mut memory = vec![5u32];
    let (report, pointer) = run_on("[-]", &mut memory, &[1, 2, 3], 1000);
    assert_eq!(
        report,
        Report { output: vec![], read: 0, steps: 16, status: Status::Halted }
    );
    assert_eq!(memory, vec![0]);
    assert_eq!(pointer, 0);
}

#[test]
fn limit_counts_the_step_that_finds_the_end() {
    let mut memory = vec![5u32];
    let (report, _) = run_on("[-]", &mut memory, &[], 17);
    assert_eq!(report.status, Status::Halted);
    assert_eq!(report.steps, 16);
    let mut memory = vec![5u32];
    let (report, _) = run_on("[-]", &mut memory, &[], 16);
    assert_eq!(report.status, Status::LimitReached);
    assert_eq!(report.steps, 16);
    assert_eq!(memory, vec![0]);
    let mut memory = vec![5u32];
    let (report, _) = run_on("[-]", &mut memory, &[], 2);
    assert_eq!(report.status, Status::LimitReached);
    assert_eq!(report.steps, 2);
    assert_eq!(memory, vec![4]);
    let mut memory = vec![5u32];
    let (report, _) = run_on("", &mut memory, &[], 0);
    assert_eq!(report.status, Status::LimitReached);
    assert_eq!(report.steps, 0);
    let (report, _) = run_on("", &mut memory, &[], 1);
    assert_eq!(report.status, Status::Halted);
    assert_eq!(report.steps, 0);
}

#[test]
fn increment_wraps_from_the_largest_value_to_zero() {
    let mut memory = vec![u32::MAX];
    let (report, _) = run_on("+", &mut memory, &[], 10);
    assert_eq!(report.status, Status::Halted);
    assert_eq!(memory, vec![0]);
}

#[test]
fn decrement_wraps_from_zero_to_the_largest_value() {
    let mut memory = vec![0u32];
    let (report, _) = run_on("-", &mut memory, &[], 10);
    assert_eq!(report.status, Status::Halted);
    assert_eq!(memory, vec![u32::MAX]);
}

#[test]
fn increment_and_decrement_undo_each_other() {
    for start in [0u32, 1, 255, 256, u32::MAX - 1, u32::MAX] {
        let mut memory = vec![start];
        run_on("+-", &mut memory, &[], 10);
        assert_eq!(memory, vec![start]);
        run_on("-+", &mut memory, &[], 10);
        assert_eq!(memory, vec![start]);
    }
}

#[test]
fn loop_on_a_zero_cell_is_passed_over() {
    let mut memory = vec![0u32, 9];
    let (report, pointer) = run_on("[+.>,]", &mut memory, &[7], 100);
    assert_eq!(
        report,
        Report { output: vec![], read: 0, steps: 1, status: Status::Halted }
    );
    assert_eq!(memory, vec![0, 9]);
    assert_eq!(pointer, 0);
}

#[test]
fn loop_on_a_zero_cell_takes_one_step() {
    let commands = tree("[+]");
    let mut memory = vec![0u32];
    let mut pointer = 0;
    let mut cursor = Cursor::new(&commands);
    assert_eq!(step(&mut cursor, &mut memory, &mut pointer), Action::Proceed);
    assert_eq!(memory, vec![0]);
    assert_eq!(step(&mut cursor, &mut memory, &mut pointer), Action::Halt);
    assert_eq!(step(&mut cursor, &mut memory, &mut pointer), Action::Halt);
    assert_eq!(memory, vec![0]);
    assert_eq!(pointer, 0);
}

#[test]
fn input_at_the_end_of_the_input_stores_zero() {
    let mut memory = vec![42u32];
    let (report, _) = run_on(",", &mut memory, &[], 10);
    assert_eq!(report.status, Status::Halted);
    assert_eq!(report.read, 0);
    assert_eq!(memory, vec![0]);
}

#[test]
fn input_takes_the_units_in_order() {
    let mut memory = vec![0u32; 4];
    let (report, pointer) = run_on(",>,>,>,", &mut memory, &[10, 20, 255], 100);
    assert_eq!(report.status, Status::Halted);
    assert_eq!(report.read, 3);
    assert_eq!(memory, vec![10, 20, 255, 0]);
    assert_eq!(pointer, 3);
}

#[test]
fn unused_input_is_not_counted() {
    let mut memory = vec![0u32];
    let (report, _) = run_on(",", &mut memory, &[1, 2, 3], 100);
    assert_eq!(report.read, 1);
    assert_eq!(memory, vec![1]);
}

#[test]
fn output_writes_the_low_eight_bits_of_the_cell() {
    let mut memory = vec![321u32, 256, 255, u32::MAX];
    let (report, _) = run_on(".>.>.>.", &mut memory, &[], 100);
    assert_eq!(report.status, Status::Halted);
    assert_eq!(report.output, vec![65, 0, 255, 255]);
}

#[test]
fn multiplication_by_nested_counting_writes_the_product() {
    let mut memory = vec![0u32; 3];
    let (report, _) = run_on("++++++++[>++++++++<-]>+.", &mut memory, &[], 10_000);
    assert_eq!(report.status, Status::Halted);
    assert_eq!(report.output, vec![65]);
    assert_eq!(memory, vec![0, 65, 0]);
}

#[test]
fn nested_loops_run_the_inner_loop_for_each_outer_round() {
    let mut memory = vec![0u32; 3];
    let (report, _) = run_on("+++[>++[>+<-]<-]", &mut memory, &[], 10_000);
    assert_eq!(report.status, Status::Halted);
    assert_eq!(memory, vec![0, 0, 6]);
}

#[test]
fn moving_left_of_the_first_cell_is_a_fault() {
    let mut memory = vec![0u32; 3];
    let (report, pointer) = run_on("+<+", &mut memory, &[], 100);
    assert_eq!(report.status, Status::Faulted);
    assert_eq!(report.steps, 1);
    assert_eq!(memory, vec![1, 0, 0]);
    assert_eq!(pointer, 0);
}

#[test]
fn moving_right_of_the_last_cell_is_a_fault() {
    let mut memory = vec![0u32; 2];
    let (report, pointer) = run_on(".>+.>+.", &mut memory, &[], 100);
    assert_eq!(report.status, Status::Faulted);
    assert_eq!(report.output, vec![0, 1]);
    assert_eq!(memory, vec![0, 1]);
    assert_eq!(pointer, 1);
}

#[test]
fn a_cell_command_off_the_tape_is_a_fault() {
    for source in ["+", "-", ".", ",", "[]", ">", "<"] {
        let mut memory: Vec<u32> = vec![];
        let (report, pointer) = run_on(source, &mut memory, &[1], 100);
        assert_eq!(report.status, Status::Faulted, "source {:?}", source);
        assert_eq!(report.read, 0);
        assert_eq!(pointer, 0);
    }
    let commands = tree("+");
    let mut memory = vec![0u32; 2];
    let mut pointer = 2;
    let report = run(&commands, &mut memory, &mut pointer, &[], 100);
    assert_eq!(report.status, Status::Faulted);
    assert_eq!(memory, vec![0, 0]);
    assert_eq!(pointer, 2);
}

#[test]
fn moving_left_onto_the_last_cell_is_allowed() {
    let commands = tree("<+");
    let mut memory = vec![0u32; 2];
    let mut pointer = 2;
    let report = run(&commands, &mut memory, &mut pointer, &[], 100);
    assert_eq!(report.status, Status::Halted);
    assert_eq!(memory, vec![0, 1]);
    assert_eq!(pointer, 1);
    let mut pointer = 3;
    let report = run(&commands, &mut memory, &mut pointer, &[], 100);
    assert_eq!(report.status, Status::Faulted);
    assert_eq!(pointer, 3);
}

#[test]
fn endless_loop_stops_at_the_limit() {
    let mut memory = vec![0u32];
    let (report, _) = run_on("+[]", &mut memory, &[], 5000);
    assert_eq!(report.status, Status::LimitReached);
    assert_eq!(memory, vec![1]);
    let mut memory = vec![0u32];
    let (report, _) = run_on("+[.]", &mut memory, &[], 10);
    assert_eq!(report.status, Status::LimitReached);
    assert_eq!(report.output, vec![1, 1, 1]);
}

#[test]
fn unmatched_open_bracket_loops_over_the_rest() {
    let mut memory = vec![3u32, 0];
    let (report, _) = run_on("[->+<", &mut memory, &[], 1000);
    assert_eq!(report.status, Status::Halted);
    assert_eq!(memory, vec![0, 3]);
}

#[test]
fn stray_close_bracket_ends_the_program() {
    let mut memory = vec![0u32];
    let (report, _) = run_on("++]+++", &mut memory, &[], 1000);
    assert_eq!(report.status, Status::Halted);
    assert_eq!(memory, vec![2]);
}

#[test]
fn step_asks_the_host_to_read_and_feed_stores() {
    let commands = tree(",+.");
    let mut memory = vec![9u32];
    let mut pointer = 0;
    let mut cursor = Cursor::new(&commands);
    assert_eq!(step(&mut cursor, &mut memory, &mut pointer), Action::Read);
    assert_eq!(step(&mut cursor, &mut memory, &mut pointer), Action::Read);
    assert_eq!(memory, vec![9]);
    assert!(feed(&mut cursor, &mut memory, pointer, Some(200)));
    assert_eq!(memory, vec![200]);
    assert!(!feed(&mut cursor, &mut memory, pointer, Some(1)));
    assert_eq!(memory, vec![200]);
    assert_eq!(step(&mut cursor, &mut memory, &mut pointer), Action::Proceed);
    assert_eq!(step(&mut cursor, &mut memory, &mut pointer), Action::Write(201));
    assert_eq!(step(&mut cursor, &mut memory, &mut pointer), Action::Halt);
    assert!(!feed(&mut cursor, &mut memory, pointer, None));
    assert_eq!(memory, vec![201]);
}

#[test]
fn feed_is_refused_while_the_pointer_is_off_the_tape() {
    let commands = tree(",");
    let mut memory: Vec<u32> = vec![];
    let mut pointer = 0;
    let mut cursor = Cursor::new(&commands);
    assert_eq!(step(&mut cursor, &mut memory, &mut pointer), Action::Fault);
    assert!(!feed(&mut cursor, &mut memory, pointer, Some(1)));
}

#[test]
fn feed_at_the_end_of_the_input_stores_zero() {
    let commands = tree(",");
    let mut memory = vec![77u32];
    let mut pointer = 0;
    let mut cursor = Cursor::new(&commands);
    assert_eq!(step(&mut cursor, &mut memory, &mut pointer), Action::Read);
    assert!(feed(&mut cursor, &mut memory, pointer, None));
    assert_eq!(memory, vec![0]);
    assert_eq!(step(&mut cursor, &mut memory, &mut pointer), Action::Halt);
}

#[test]
fn step_reports_a_fault_and_changes_nothing() {
    let commands = tree("<");
    let mut memory = vec![4u32];
    let mut pointer = 0;
    let mut cursor = Cursor::new(&commands);
    assert_eq!(step(&mut cursor, &mut memory, &mut pointer), Action::Fault);
    assert_eq!(step(&mut cursor, &mut memory, &mut pointer), Action::Fault);
    assert_eq!(memory, vec![4]);
    assert_eq!(pointer, 0);
}

#[test]
fn step_walks_a_loop_round_by_round() {
    let commands = tree("[>]");
    let mut memory = vec![1u32, 0];
    let mut pointer = 0;
    let mut cursor = Cursor::new(&commands);
    // enter the loop, move right, leave the body, pass the loop over
    assert_eq!(step(&mut cursor, &mut memory, &mut pointer), Action::Proceed);
    assert_eq!(pointer, 0);
    assert_eq!(step(&mut cursor, &mut memory, &mut pointer), Action::Proceed);
    assert_eq!(pointer, 1);
    assert_eq!(step(&mut cursor, &mut memory, &mut pointer), Action::Proceed);
    assert_eq!(step(&mut cursor, &mut memory, &mut pointer), Action::Proceed);
    assert_eq!(step(&mut cursor, &mut memory, &mut pointer), Action::Halt);
    assert_eq!(memory, vec![1, 0]);
    assert_eq!(pointer, 1);
}

#[test]
fn sequence_runs_its_parts_one_after_the_other() {
    let first = ",[>+<-]";
    let second = ">.,.";
    let input = [3u8, 9];
    let mut whole_memory = vec![0u32; 2];
    let (whole, whole_pointer) = run_on(
        &format!("{}{}", first, second),
        &mut whole_memory,
        &input,
        1000,
    );
    let mut memory = vec![0u32; 2];
    let (head, pointer) = run_on(first, &mut memory, &input, 1000);
    assert_eq!(head.status, Status::Halted);
    let commands = tree(second);
    let mut pointer = pointer;
    let tail = run(
        &commands,
        &mut memory,
        &mut pointer,
        &input[head.read..],
        1000 - head.steps,
    );
    assert_eq!(whole.status, tail.status);
    assert_eq!(whole.steps, head.steps + tail.steps);
    assert_eq!(whole.read, head.read + tail.read);
    assert_eq!(whole.output, [head.output, tail.output].concat());
    assert_eq!(whole.output, vec![3, 9]);
    assert_eq!(whole_memory, memory);
    assert_eq!(whole_pointer, pointer);
}

#[test]
fn loop_round_is_two_steps_more_than_its_body() {
    let mut memory = vec![1u32, 0];
    let (body, _) = run_on("->+++<", &mut memory, &[], 1000);
    assert_eq!(body.status, Status::Halted);
    assert_eq!(body.steps, 6);
    let mut memory = vec![1u32, 0];
    let (whole, _) = run_on("[->+++<]", &mut memory, &[], 1000);
    assert_eq!(whole.status, Status::Halted);
    // enter, body, leave, and the check that passes the loop over
    assert_eq!(whole.steps, 1 + 6 + 1 + 1);
    assert_eq!(memory, vec![0, 3]);
}
