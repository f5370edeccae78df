use prun::expand::{Cmd, RangeError};
use prun::task::{Alternative, Argument, RangeObject, Task};

fn strings(items: &[&str]) -> Vec<String> {
    items.iter().map(|s| s.to_string()).collect()
}

fn int_range(from: i32, to: i32, step: i32) -> Argument {
    Argument::Range(RangeObject::Int { from, to, step, prefix: None })
}

fn names(cmds: &[Cmd]) -> Vec<String> {
    cmds.iter().map(|c| c.name.clone()).collect()
}

fn tokens(alts: &[Alternative]) -> Vec<String> {
    alts.iter().map(|a| a.token.clone()).collect()
}

#[test]
fn choice_then_range_expands_in_order() {
    let task = Task {
        command: "echo".to_string(),
        args: vec![Argument::Choice(strings(&["a", "b"])), int_range(1, 3, 1)],
    };
    let cmds = task.expand("t").unwrap();
    assert_eq!(cmds.len(), 6);
    assert_eq!(names(&cmds), strings(&["t a 1", "t a 2", "t a 3", "t b 1", "t b 2", "t b 3"]));
    assert_eq!(cmds[0].args, strings(&["a", "1"]));
    assert_eq!(cmds[1].args, strings(&["a", "2"]));
    assert_eq!(cmds[2].args, strings(&["a", "3"]));
    assert_eq!(cmds[3].args, strings(&["b", "1"]));
    assert_eq!(cmds[4].args, strings(&["b", "2"]));
    assert_eq!(cmds[5].args, strings(&["b", "3"]));
    for cmd in &cmds {
        assert_eq!(cmd.command, "echo");
    }
}

#[test]
fn range_stops_at_the_last_value_within_the_bound() {
    let alts = int_range(0, 10, 3).alternatives().unwrap();
    assert_eq!(tokens(&alts), strings(&["0", "3", "6", "9"]));
    let labels: Vec<String> = alts.iter().map(|a| a.label.clone()).collect();
    assert_eq!(labels, strings(&[" 0", " 3", " 6", " 9"]));
}

#[test]
fn range_includes_the_upper_bound_when_reached() {
    let alts = int_range(0, 9, 3).alternatives().unwrap();
    assert_eq!(tokens(&alts), strings(&["0", "3", "6", "9"]));
    let alts = int_range(5, 5, 1).alternatives().unwrap();
    assert_eq!(tokens(&alts), strings(&["5"]));
}

#[test]
fn static_only_task_expands_to_one_invocation() {
    let task = Task {
        command: "ls".to_string(),
        args: vec![
            Argument::Static("-l".to_string()),
            Argument::Static("--color".to_string()),
            Argument::Static("/tmp".to_string()),
        ],
    };
    let cmds = task.expand("list").unwrap();
    assert_eq!(cmds.len(), 1);
    assert_eq!(cmds[0].args, strings(&["-l", "--color", "/tmp"]));
    assert_eq!(cmds[0].name, "list");
    assert_eq!(cmds[0].command, "ls");
}

#[test]
fn task_without_arguments_expands_to_one_bare_invocation() {
    let task = Task { command: "true".to_string(), args: vec![] };
    let cmds = task.expand("noop").unwrap();
    assert_eq!(cmds.len(), 1);
    assert!(cmds[0].args.is_empty());
    assert_eq!(cmds[0].name, "noop");
}

#[test]
fn count_is_the_product_of_the_cardinalities() {
    let task = Task {
        command: "run".to_string(),
        args: vec![
            Argument::Choice(strings(&["x", "y", "z"])),
            Argument::Static("--".to_string()),
            int_range(0, 10, 3),
            Argument::Range(RangeObject::Float {
                values: strings(&["0.5", "1"]),
                prefix: None,
            }),
        ],
    };
    let cmds = task.expand("p").unwrap();
    assert_eq!(cmds.len(), 3 * 1 * 4 * 2);
    assert_eq!(cmds[0].args, strings(&["x", "--", "0", "0.5"]));
    assert_eq!(cmds[0].name, "p x 0 0.5");
    assert_eq!(cmds[1].args, strings(&["x", "--", "0", "1"]));
    assert_eq!(cmds[2].args, strings(&["x", "--", "3", "0.5"]));
    assert_eq!(cmds[8].args, strings(&["y", "--", "0", "0.5"]));
    assert_eq!(cmds[23].args, strings(&["z", "--", "9", "1"]));
    assert_eq!(cmds[23].name, "p z 9 1");
}

#[test]
fn empty_choice_leaves_no_invocation() {
    let task = Task {
        command: "run".to_string(),
        args: vec![Argument::Static("a".to_string()), Argument::Choice(vec![]), int_range(1, 3, 1)],
    };
    assert_eq!(task.expand("t").unwrap().len(), 0);
}

#[test]
fn range_above_its_bound_is_empty_whatever_the_step() {
    for step in [-3, 0, 1, 7] {
        let alts = int_range(4, 3, step).alternatives().unwrap();
        assert!(alts.is_empty());
        let task = Task { command: "run".to_string(), args: vec![int_range(4, 3, step)] };
        assert_eq!(task.expand("t").unwrap().len(), 0);
    }
}

#[test]
fn prefix_goes_into_the_token_and_not_into_the_name() {
    let task = Task {
        command: "train".to_string(),
        args: vec![Argument::Range(RangeObject::Int {
            from: 8,
            to: 12,
            step: 2,
            prefix: Some("--batch=".to_string()),
        })],
    };
    let cmds = task.expand("job").unwrap();
    assert_eq!(cmds.len(), 3);
    assert_eq!(cmds[0].args, strings(&["--batch=8"]));
    assert_eq!(cmds[1].args, strings(&["--batch=10"]));
    assert_eq!(cmds[2].args, strings(&["--batch=12"]));
    assert_eq!(names(&cmds), strings(&["job 8", "job 10", "job 12"]));
}

#[test]
fn rendered_fractional_values_take_the_prefix_too() {
    let range = RangeObject::Float {
        values: strings(&["0.1", "0.2", "0.30000000000000004"]),
        prefix: Some("--lr=".to_string()),
    };
    let alts = range.alternatives().unwrap();
    assert_eq!(tokens(&alts), strings(&["--lr=0.1", "--lr=0.2", "--lr=0.30000000000000004"]));
    assert_eq!(alts[2].label, " 0.30000000000000004");
}

#[test]
fn static_token_does_not_show_in_the_name() {
    let task = Task {
        command: "cc".to_string(),
        args: vec![
            Argument::Static("-O".to_string()),
            Argument::Choice(strings(&["1", "2"])),
            Argument::Static("main.c".to_string()),
        ],
    };
    let cmds = task.expand("build").unwrap();
    assert_eq!(names(&cmds), strings(&["build 1", "build 2"]));
    assert_eq!(cmds[1].args, strings(&["-O", "2", "main.c"]));
}

#[test]
fn negative_values_are_rendered_with_a_sign() {
    let alts = int_range(-4, 4, 4).alternatives().unwrap();
    assert_eq!(tokens(&alts), strings(&["-4", "0", "4"]));
    let alts = int_range(-12, -10, 1).alternatives().unwrap();
    assert_eq!(tokens(&alts), strings(&["-12", "-11", "-10"]));
}

#[test]
fn range_at_the_limits_of_the_integer_type_ends() {
    let alts = int_range(i32::MAX - 1, i32::MAX, 1).alternatives().unwrap();
    assert_eq!(tokens(&alts), strings(&["2147483646", "2147483647"]));
    let alts = int_range(i32::MIN, i32::MIN, 1).alternatives().unwrap();
    assert_eq!(tokens(&alts), strings(&["-2147483648"]));
    let alts = int_range(0, i32::MAX, i32::MAX).alternatives().unwrap();
    assert_eq!(tokens(&alts), strings(&["0", "2147483647"]));
    let alts = int_range(i32::MIN, i32::MAX, i32::MAX).alternatives().unwrap();
    assert_eq!(tokens(&alts), strings(&["-2147483648", "-1", "2147483646"]));
}

#[test]
fn zero_step_is_rejected() {
    let task = Task {
        command: "run".to_string(),
        args: vec![Argument::Static("a".to_string()), int_range(1, 5, 0)],
    };
    let error = task.expand("sweep").unwrap_err();
    assert_eq!(
        error,
        RangeError { task: "sweep".to_string(), arg: 1, from: 1, to: 5, step: 0 }
    );
    assert!(int_range(1, 5, 0).alternatives().is_none());
}

#[test]
fn negative_step_is_rejected() {
    let task = Task { command: "run".to_string(), args: vec![int_range(-3, -3, -1)] };
    let error = task.expand("down").unwrap_err();
    assert_eq!(
        error,
        RangeError { task: "down".to_string(), arg: 0, from: -3, to: -3, step: -1 }
    );
}

#[test]
fn first_unending_range_is_reported_even_behind_an_empty_choice() {
    let task = Task {
        command: "run".to_string(),
        args: vec![
            Argument::Choice(vec![]),
            int_range(0, 1, 1),
            int_range(0, 9, -2),
            int_range(0, 9, 0),
        ],
    };
    let error = task.expand("t").unwrap_err();
    assert_eq!(error.arg, 2);
    assert_eq!(error.step, -2);
}

#[test]
fn range_error_message_names_task_argument_and_step() {
    let error = RangeError { task: "sweep".to_string(), arg: 3, from: -1, to: 20, step: 0 };
    assert_eq!(
        error.message(),
        "task 'sweep': argument 3: integer range from -1 to 20 needs a positive step, not 0"
    );
    let error = RangeError { task: "".to_string(), arg: 0, from: 7, to: 7, step: -15 };
    assert_eq!(
        error.message(),
        "task '': argument 0: integer range from 7 to 7 needs a positive step, not -15"
    );
}

#[test]
fn expanding_twice_gives_the_same_list() {
    let task = Task {
        command: "echo".to_string(),
        args: vec![
            Argument::Choice(strings(&["a", "b", "c"])),
            Argument::Range(RangeObject::Int {
                from: -5,
                to: 5,
                step: 5,
                prefix: Some("n=".to_string()),
            }),
            Argument::Static("end".to_string()),
        ],
    };
    let first = task.expand("twice").unwrap();
    let second = task.expand("twice").unwrap();
    assert_eq!(first, second);
    assert_eq!(first.len(), 9);

    let bad = Task { command: "echo".to_string(), args: vec![int_range(0, 0, 0)] };
    assert_eq!(bad.expand("twice").unwrap_err(), bad.expand("twice").unwrap_err());
}

#[test]
fn static_argument_has_one_alternative_without_a_label() {
    let alts = Argument::Static("--flag".to_string()).alternatives().unwrap();
    assert_eq!(alts, vec![Alternative { token: "--flag".to_string(), label: "".to_string() }]);
}

#[test]
fn choice_alternatives_follow_the_list() {
    let alts = Argument::Choice(strings(&["b", "a", "b"])).alternatives().unwrap();
    assert_eq!(tokens(&alts), strings(&["b", "a", "b"]));
    assert_eq!(alts[1].label, " a");
}
