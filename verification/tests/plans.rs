use unix_shell::eval::{Input, Interrupt, Output, PlanIn, PlanOut, Step};
use unix_shell::execute;
use unix_shell::run::{Runtime, StepResult};

fn words(ws: &[&str]) -> Vec<String> {
    ws.iter().map(|w| String::from(*w)).collect()
}

#[test]
fn empty_line_plans_nothing() {
    assert_eq!(execute(&String::from("")).unwrap(), vec![]);
    assert_eq!(execute(&String::from("   ")).unwrap(), vec![]);
}

#[test]
fn single_command_plan() {
    let steps = execute(&String::from("ls -l")).unwrap();
    assert_eq!(
        steps,
        vec![
            Step::Spawn(words(&["ls", "-l"]), PlanIn::Outer, PlanOut::Outer),
            Step::ReleaseIn(PlanIn::Outer),
            Step::ReleaseOut(PlanOut::Outer),
            Step::WaitOne,
        ]
    );
}

#[test]
fn background_command_is_not_waited_for() {
    let steps = execute(&String::from("ls &")).unwrap();
    assert_eq!(
        steps,
        vec![
            Step::Spawn(words(&["ls"]), PlanIn::Outer, PlanOut::Outer),
            Step::ReleaseIn(PlanIn::Outer),
            Step::ReleaseOut(PlanOut::Outer),
        ]
    );
}

#[test]
fn redirects_override_the_outer_channels() {
    let steps = execute(&String::from("cat < a > b")).unwrap();
    assert_eq!(
        steps,
        vec![
            Step::Spawn(
                words(&["cat"]),
                PlanIn::File(String::from("a")),
                PlanOut::File(String::from("b")),
            ),
            Step::ReleaseIn(PlanIn::File(String::from("a"))),
            Step::ReleaseOut(PlanOut::File(String::from("b"))),
            Step::WaitOne,
        ]
    );
}

#[test]
fn one_redirect_per_direction_keeps_both() {
    let steps = execute(&String::from("sort < data > out")).unwrap();
    match &steps[0] {
        Step::Spawn(args, PlanIn::File(i), PlanOut::File(o)) => {
            assert_eq!(args, &words(&["sort"]));
            assert_eq!(i, "data");
            assert_eq!(o, "out");
        },
        s => panic!("unexpected first step {:?}", s),
    }
}

#[test]
fn three_stage_pipeline_plan_wires_the_chain() {
    let steps = execute(&String::from("cat f | sort | wc -l")).unwrap();
    assert_eq!(
        steps,
        vec![
            Step::MakePipe,
            Step::Spawn(words(&["cat", "f"]), PlanIn::Outer, PlanOut::PipeWrite(0)),
            Step::ReleaseIn(PlanIn::Outer),
            Step::ReleaseOut(PlanOut::PipeWrite(0)),
            Step::MakePipe,
            Step::Spawn(words(&["sort"]), PlanIn::PipeRead(0), PlanOut::PipeWrite(1)),
            Step::ReleaseIn(PlanIn::PipeRead(0)),
            Step::ReleaseOut(PlanOut::PipeWrite(1)),
            Step::Spawn(words(&["wc", "-l"]), PlanIn::PipeRead(1), PlanOut::Outer),
            Step::ReleaseIn(PlanIn::PipeRead(1)),
            Step::ReleaseOut(PlanOut::Outer),
            Step::WaitOne,
            Step::WaitOne,
            Step::WaitOne,
        ]
    );
}

#[test]
fn every_pipe_end_is_released_exactly_once() {
    let steps = execute(&String::from("a | b | c | d")).unwrap();
    let pipes = steps.iter().filter(|s| matches!(s, Step::MakePipe)).count();
    assert_eq!(pipes, 3);
    for k in 0..pipes {
        let reads = steps
            .iter()
            .filter(|s| matches!(s, Step::ReleaseIn(PlanIn::PipeRead(i)) if *i == k))
            .count();
        let writes = steps
            .iter()
            .filter(|s| matches!(s, Step::ReleaseOut(PlanOut::PipeWrite(i)) if *i == k))
            .count();
        assert_eq!(reads, 1);
        assert_eq!(writes, 1);
    }
    let waits = steps.iter().filter(|s| matches!(s, Step::WaitOne)).count();
    assert_eq!(waits, 4);
}

#[test]
fn syntax_errors_from_execute() {
    // dangling operator
    assert!(matches!(
        execute(&String::from("ls >")),
        Err(Interrupt::SyntaxError(_))
    ));
    // multi-word redirect target
    assert!(matches!(
        execute(&String::from("ls > a b")),
        Err(Interrupt::SyntaxError(_))
    ));
    // trailing backslash: a lexer error
    assert!(matches!(
        execute(&String::from("ls \\")),
        Err(Interrupt::SyntaxError(_))
    ));
    // validator rejections
    assert!(matches!(
        execute(&String::from("ls > a | cat")),
        Err(Interrupt::SyntaxError(_))
    ));
    assert!(matches!(
        execute(&String::from("ls > a > a")),
        Err(Interrupt::SyntaxError(_))
    ));
}

#[test]
fn runtime_rejects_incoherent_plans() {
    let bad = vec![Step::ReleaseIn(PlanIn::PipeRead(0))];
    assert!(Runtime::new(bad, Input::Stdin, Output::Stdout).is_none());
    let good = vec![Step::MakePipe, Step::ReleaseIn(PlanIn::PipeRead(0))];
    assert!(Runtime::new(good, Input::Stdin, Output::Stdout).is_some());
}

#[test]
fn runtime_makes_and_closes_real_pipes() {
    // make one pipe, close both ends; the plan completes
    let plan = vec![
        Step::MakePipe,
        Step::ReleaseOut(PlanOut::PipeWrite(0)),
        Step::ReleaseIn(PlanIn::PipeRead(0)),
    ];
    let mut rt = Runtime::new(plan, Input::Stdin, Output::Stdout).unwrap();
    assert!(matches!(rt.step(), StepResult::Running));
    assert!(matches!(rt.step(), StepResult::Running));
    assert!(matches!(rt.step(), StepResult::Running));
    assert!(matches!(rt.step(), StepResult::Done));

    // closing the same end twice fails: the first close was real
    let plan = vec![
        Step::MakePipe,
        Step::ReleaseOut(PlanOut::PipeWrite(0)),
        Step::ReleaseOut(PlanOut::PipeWrite(0)),
    ];
    let mut rt = Runtime::new(plan, Input::Stdin, Output::Stdout).unwrap();
    assert!(matches!(rt.step(), StepResult::Running));
    assert!(matches!(rt.step(), StepResult::Running));
    assert!(matches!(
        rt.step(),
        StepResult::Stopped(Interrupt::ExecError(_))
    ));
}

#[test]
fn runtime_resolves_file_channels() {
    let steps = execute(&String::from("cat < a > b")).unwrap();
    let mut rt = Runtime::new(steps, Input::Stdin, Output::Stdout).unwrap();
    let req = loop {
        match rt.step() {
            StepResult::Running => {},
            StepResult::Spawn(req) => break req,
            other => panic!("unexpected outcome {:?}", other),
        }
    };
    assert_eq!(req.args, words(&["cat"]));
    assert!(matches!(&req.input, Input::File(p) if p == "a"));
    assert!(matches!(&req.output, Output::File(p) if p == "b"));
    // the releases are no-ops on files; the final wait then reports the
    // failure, since no child was really forked
    assert!(matches!(rt.step(), StepResult::Running));
    assert!(matches!(rt.step(), StepResult::Running));
    assert!(matches!(
        rt.step(),
        StepResult::Stopped(Interrupt::ExecError(_))
    ));
}

#[test]
fn background_marker_after_a_redirect_target_is_dropped() {
    // the marker backgrounds the chunk it stands in; a redirect target's
    // chunk contributes only the path, so this command is waited for
    let steps = execute(&String::from("cat > b &")).unwrap();
    assert!(steps.contains(&Step::WaitOne));
}

#[test]
fn pipeline_runtime_hands_out_the_pipe_ends() {
    // run the three-stage plan without forking anything: the runtime makes
    // the pipes, resolves each spawn, and releases every end; the final
    // waits fail because no child was ever forked
    let steps = execute(&String::from("a | b | c")).unwrap();
    let mut rt = Runtime::new(steps, Input::Stdin, Output::Stdout).unwrap();
    let mut spawns = Vec::new();
    let stopped;
    loop {
        match rt.step() {
            StepResult::Running => {},
            StepResult::Spawn(req) => spawns.push(req),
            StepResult::Done => panic!("plan finished although no child exists to wait for"),
            StepResult::Stopped(e) => {
                stopped = e;
                break;
            },
        }
    }
    assert!(matches!(stopped, Interrupt::ExecError(_)));
    assert_eq!(spawns.len(), 3);
    assert!(matches!(spawns[0].input, Input::Stdin));
    assert!(matches!(spawns[2].output, Output::Stdout));
    // stage 0 writes the same pipe stage 1 reads, and so on down the chain
    let w0 = match spawns[0].output {
        Output::Pipefile(fd) => fd,
        _ => panic!("stage 0 must write a pipe"),
    };
    let r0 = match spawns[1].input {
        Input::Pipefile(fd) => fd,
        _ => panic!("stage 1 must read a pipe"),
    };
    assert_eq!(w0, r0);
    let w1 = match spawns[1].output {
        Output::Pipefile(fd) => fd,
        _ => panic!("stage 1 must write a pipe"),
    };
    let r1 = match spawns[2].input {
        Input::Pipefile(fd) => fd,
        _ => panic!("stage 2 must read a pipe"),
    };
    assert_eq!(w1, r1);
    assert_ne!(w0, w1);
}
