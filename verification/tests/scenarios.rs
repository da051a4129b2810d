use petgraph::graphmap::DiGraphMap;
use runner::{run_steps, Outcome, RunError, RunType, Step};
use std::cell::RefCell;
use std::time::Duration;

fn command(name: &str, text: &str) -> Step<String, u32, String> {
    Step {
        name: name.to_string(),
        run: RunType::Command(text.to_string()),
        expect: format!("expect-{}", name),
        retry: 3,
        filters: vec![format!("filter-{}", name)],
        outcome: None,
    }
}

fn reference(name: &str, to: &str) -> Step<String, u32, String> {
    Step { run: RunType::Step(to.to_string()), ..command(name, "") }
}

fn ok(output: &str) -> Outcome {
    Outcome { output: Some(output.to_string()), error: None, duration: Duration::from_millis(5) }
}

fn failed(error: &str) -> Outcome {
    Outcome { output: None, error: Some(error.to_string()), duration: Duration::from_millis(7) }
}

fn skipped() -> Outcome {
    Outcome {
        output: Some(String::new()),
        error: Some("Dependency Not Met".to_string()),
        duration: Duration::from_secs(0),
    }
}

fn text_of(run: &RunType) -> String {
    match run {
        RunType::Command(text) => text.clone(),
        RunType::Step(text) => text.clone(),
    }
}

#[test]
fn fan_out_runs_dependents_after_their_dependency() {
    let mut steps = vec![command("a", "run-a"), command("b", "run-b"), command("c", "run-c")];
    let mut graph: DiGraphMap<usize, ()> = DiGraphMap::new();
    graph.add_node(0);
    graph.add_edge(0, 1, ());
    graph.add_edge(0, 2, ());
    let log: RefCell<Vec<String>> = RefCell::new(Vec::new());
    let result = run_steps(
        &mut steps,
        &graph,
        |run: &RunType, _expect: &String, _filters: &Vec<String>, _retry: &u32| {
            log.borrow_mut().push(text_of(run));
            if text_of(run) == "run-a" {
                ok("x")
            } else {
                ok("done")
            }
        },
    );
    assert_eq!(result, Ok(()));
    assert_eq!(steps[0].outcome, Some(ok("x")));
    assert_eq!(steps[1].outcome, Some(ok("done")));
    assert_eq!(steps[2].outcome, Some(ok("done")));
    assert_eq!(*log.borrow(), vec!["run-a".to_string(), "run-b".to_string(), "run-c".to_string()]);
}

#[test]
fn failed_dependency_skips_its_dependent() {
    let mut steps = vec![command("a", "run-a"), command("b", "run-b")];
    let mut graph: DiGraphMap<usize, ()> = DiGraphMap::new();
    graph.add_edge(0, 1, ());
    let log: RefCell<Vec<String>> = RefCell::new(Vec::new());
    let result = run_steps(
        &mut steps,
        &graph,
        |run: &RunType, _expect: &String, _filters: &Vec<String>, _retry: &u32| {
            log.borrow_mut().push(text_of(run));
            failed("boom")
        },
    );
    assert_eq!(result, Ok(()));
    assert_eq!(steps[0].outcome, Some(failed("boom")));
    assert_eq!(steps[1].outcome, Some(skipped()));
    assert_eq!(steps[1].outcome.as_ref().unwrap().error, Some("Dependency Not Met".to_string()));
    assert_eq!(*log.borrow(), vec!["run-a".to_string()]);
}

#[test]
fn named_step_is_replaced_by_its_output() {
    let mut steps = vec![command("a", "literal"), reference("b", "a")];
    let mut graph: DiGraphMap<usize, ()> = DiGraphMap::new();
    graph.add_edge(0, 1, ());
    let seen: RefCell<Vec<RunType>> = RefCell::new(Vec::new());
    let result = run_steps(
        &mut steps,
        &graph,
        |run: &RunType, _expect: &String, _filters: &Vec<String>, _retry: &u32| {
            seen.borrow_mut().push(run.clone());
            ok("42")
        },
    );
    assert_eq!(result, Ok(()));
    assert_eq!(
        *seen.borrow(),
        vec![RunType::Command("literal".to_string()), RunType::Step("42".to_string())]
    );
    assert_eq!(steps[1].run, RunType::Step("a".to_string()));
}

#[test]
fn every_step_runs_exactly_once_in_a_diamond() {
    let mut steps = vec![
        command("a", "0"),
        command("b", "1"),
        command("c", "2"),
        command("d", "3"),
    ];
    let mut graph: DiGraphMap<usize, ()> = DiGraphMap::new();
    graph.add_edge(0, 1, ());
    graph.add_edge(0, 2, ());
    graph.add_edge(1, 3, ());
    graph.add_edge(2, 3, ());
    let log: RefCell<Vec<String>> = RefCell::new(Vec::new());
    let result = run_steps(
        &mut steps,
        &graph,
        |run: &RunType, _expect: &String, _filters: &Vec<String>, _retry: &u32| {
            log.borrow_mut().push(text_of(run));
            ok("fine")
        },
    );
    assert_eq!(result, Ok(()));
    for step in steps.iter() {
        assert_eq!(step.outcome, Some(ok("fine")));
    }
    assert_eq!(
        *log.borrow(),
        vec!["0".to_string(), "1".to_string(), "2".to_string(), "3".to_string()]
    );
}

#[test]
fn failure_spreads_to_every_step_downstream() {
    let mut steps = vec![
        command("a", "0"),
        command("b", "1"),
        command("c", "2"),
        command("d", "3"),
    ];
    let mut graph: DiGraphMap<usize, ()> = DiGraphMap::new();
    graph.add_edge(0, 1, ());
    graph.add_edge(1, 2, ());
    graph.add_node(3);
    let log: RefCell<Vec<String>> = RefCell::new(Vec::new());
    let result = run_steps(
        &mut steps,
        &graph,
        |run: &RunType, _expect: &String, _filters: &Vec<String>, _retry: &u32| {
            log.borrow_mut().push(text_of(run));
            if text_of(run) == "0" {
                failed("boom")
            } else {
                ok("fine")
            }
        },
    );
    assert_eq!(result, Ok(()));
    assert_eq!(steps[0].outcome, Some(failed("boom")));
    assert_eq!(steps[1].outcome, Some(skipped()));
    assert_eq!(steps[2].outcome, Some(skipped()));
    assert_eq!(steps[3].outcome, Some(ok("fine")));
    assert_eq!(*log.borrow(), vec!["0".to_string(), "3".to_string()]);
}

#[test]
fn executor_receives_the_configuration_of_the_step() {
    let mut steps = vec![command("a", "0"), command("b", "1")];
    steps[1].retry = 9;
    let mut graph: DiGraphMap<usize, ()> = DiGraphMap::new();
    graph.add_edge(0, 1, ());
    let seen: RefCell<Vec<(String, Vec<String>, u32)>> = RefCell::new(Vec::new());
    let result = run_steps(
        &mut steps,
        &graph,
        |_run: &RunType, expect: &String, filters: &Vec<String>, retry: &u32| {
            seen.borrow_mut().push((expect.clone(), filters.clone(), *retry));
            ok("fine")
        },
    );
    assert_eq!(result, Ok(()));
    assert_eq!(
        *seen.borrow(),
        vec![
            ("expect-a".to_string(), vec!["filter-a".to_string()], 3),
            ("expect-b".to_string(), vec!["filter-b".to_string()], 9),
        ]
    );
    assert_eq!(steps[0].name, "a");
    assert_eq!(steps[1].expect, "expect-b");
}

#[test]
fn empty_list_of_steps_succeeds() {
    let mut steps: Vec<Step<String, u32, String>> = Vec::new();
    let graph: DiGraphMap<usize, ()> = DiGraphMap::new();
    let result = run_steps(
        &mut steps,
        &graph,
        |_run: &RunType, _expect: &String, _filters: &Vec<String>, _retry: &u32| ok("never"),
    );
    assert_eq!(result, Ok(()));
    assert!(steps.is_empty());
}

#[test]
fn unknown_step_name_is_refused() {
    let mut steps = vec![command("a", "0"), reference("b", "missing")];
    let mut graph: DiGraphMap<usize, ()> = DiGraphMap::new();
    graph.add_edge(0, 1, ());
    let calls: RefCell<u32> = RefCell::new(0);
    let result = run_steps(
        &mut steps,
        &graph,
        |_run: &RunType, _expect: &String, _filters: &Vec<String>, _retry: &u32| {
            *calls.borrow_mut() += 1;
            ok("fine")
        },
    );
    assert_eq!(result, Err(RunError::UnknownStep));
    assert_eq!(*calls.borrow(), 0);
    assert_eq!(steps[0].outcome, None);
    assert_eq!(steps[1].outcome, None);
}

#[test]
fn graph_with_a_neighbour_that_is_no_step_is_refused() {
    let mut steps = vec![command("a", "0"), command("b", "1")];
    let mut graph: DiGraphMap<usize, ()> = DiGraphMap::new();
    graph.add_edge(0, 1, ());
    graph.add_edge(1, 5, ());
    let calls: RefCell<u32> = RefCell::new(0);
    let result = run_steps(
        &mut steps,
        &graph,
        |_run: &RunType, _expect: &String, _filters: &Vec<String>, _retry: &u32| {
            *calls.borrow_mut() += 1;
            ok("fine")
        },
    );
    assert_eq!(result, Err(RunError::InvalidGraph));
    assert_eq!(*calls.borrow(), 0);
    assert_eq!(steps[0].outcome, None);
}

#[test]
fn unknown_step_name_is_reported_before_the_graph() {
    let mut steps = vec![reference("a", "missing")];
    let mut graph: DiGraphMap<usize, ()> = DiGraphMap::new();
    graph.add_edge(0, 7, ());
    let result = run_steps(
        &mut steps,
        &graph,
        |_run: &RunType, _expect: &String, _filters: &Vec<String>, _retry: &u32| ok("fine"),
    );
    assert_eq!(result, Err(RunError::UnknownStep));
}

#[test]
fn steps_that_wait_for_each_other_end_the_run() {
    let mut steps = vec![command("a", "0"), command("b", "1"), command("c", "2")];
    let mut graph: DiGraphMap<usize, ()> = DiGraphMap::new();
    graph.add_node(0);
    graph.add_edge(1, 2, ());
    graph.add_edge(2, 1, ());
    let log: RefCell<Vec<String>> = RefCell::new(Vec::new());
    let result = run_steps(
        &mut steps,
        &graph,
        |run: &RunType, _expect: &String, _filters: &Vec<String>, _retry: &u32| {
            log.borrow_mut().push(text_of(run));
            ok("fine")
        },
    );
    assert_eq!(result, Err(RunError::Disconnected));
    assert_eq!(*log.borrow(), vec!["0".to_string()]);
    assert_eq!(steps[0].outcome, None);
    assert_eq!(steps[1].outcome, None);
    assert_eq!(steps[2].outcome, None);
}

#[test]
fn step_that_depends_on_itself_ends_the_run() {
    let mut steps = vec![command("a", "0")];
    let mut graph: DiGraphMap<usize, ()> = DiGraphMap::new();
    graph.add_edge(0, 0, ());
    let result = run_steps(
        &mut steps,
        &graph,
        |_run: &RunType, _expect: &String, _filters: &Vec<String>, _retry: &u32| ok("fine"),
    );
    assert_eq!(result, Err(RunError::Disconnected));
    assert_eq!(steps[0].outcome, None);
}

#[test]
fn failure_can_resolve_a_cycle() {
    let mut steps = vec![command("a", "0"), command("b", "1"), command("c", "2")];
    let mut graph: DiGraphMap<usize, ()> = DiGraphMap::new();
    graph.add_edge(0, 1, ());
    graph.add_edge(2, 1, ());
    graph.add_edge(1, 2, ());
    let result = run_steps(
        &mut steps,
        &graph,
        |_run: &RunType, _expect: &String, _filters: &Vec<String>, _retry: &u32| failed("boom"),
    );
    assert_eq!(result, Ok(()));
    assert_eq!(steps[0].outcome, Some(failed("boom")));
    assert_eq!(steps[1].outcome, Some(skipped()));
    assert_eq!(steps[2].outcome, Some(skipped()));
}

#[test]
fn named_step_without_output_leaves_the_name() {
    let mut steps = vec![command("a", "literal"), reference("b", "a")];
    let mut graph: DiGraphMap<usize, ()> = DiGraphMap::new();
    graph.add_edge(0, 1, ());
    let seen: RefCell<Vec<RunType>> = RefCell::new(Vec::new());
    let result = run_steps(
        &mut steps,
        &graph,
        |run: &RunType, _expect: &String, _filters: &Vec<String>, _retry: &u32| {
            seen.borrow_mut().push(run.clone());
            Outcome { output: None, error: None, duration: Duration::from_millis(1) }
        },
    );
    assert_eq!(result, Ok(()));
    assert_eq!(seen.borrow()[1], RunType::Step("a".to_string()));
}

#[test]
fn result_does_not_depend_on_the_order_of_the_edges() {
    let run = |edges: &[(usize, usize)]| {
        let mut steps = vec![
            command("a", "0"),
            command("b", "1"),
            command("c", "2"),
            reference("d", "b"),
        ];
        let mut graph: DiGraphMap<usize, ()> = DiGraphMap::new();
        for &(from, to) in edges {
            graph.add_edge(from, to, ());
        }
        let result = run_steps(
            &mut steps,
            &graph,
            |run: &RunType, _expect: &String, _filters: &Vec<String>, _retry: &u32| {
                if text_of(run) == "2" {
                    failed("boom")
                } else {
                    ok(&format!("<{}>", text_of(run)))
                }
            },
        );
        assert_eq!(result, Ok(()));
        steps
    };
    let one = run(&[(0, 1), (0, 2), (1, 3), (0, 3)]);
    let other = run(&[(0, 3), (1, 3), (0, 2), (0, 1)]);
    assert_eq!(one, other);
    assert_eq!(one[3].outcome, Some(ok("<<1>>")));
    assert_eq!(one[2].outcome, Some(failed("boom")));
}
