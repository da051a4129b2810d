use petgraph::graphmap::DiGraphMap;
use runner::coordinator::{
    activate, build_runners, check_references, collect_outcomes, outstanding_table, wake,
};
use runner::graph::check_graph;
use runner::runner::lookup_name;
use runner::{record_outcome, Action, Outcome, RunError, RunType, Status, Step, StepRunner};
use std::time::Duration;

fn plain(name: &str) -> Step<u8, u8, u8> {
    Step {
        name: name.to_string(),
        run: RunType::Command(format!("run-{}", name)),
        expect: 1,
        retry: 2,
        filters: vec![3],
        outcome: None,
    }
}

fn good(output: &str) -> Outcome {
    Outcome { output: Some(output.to_string()), error: None, duration: Duration::from_millis(2) }
}

fn bad(error: &str) -> Outcome {
    Outcome { output: None, error: Some(error.to_string()), duration: Duration::from_millis(2) }
}

fn unmet() -> Status {
    Status::Completed(Outcome {
        output: Some(String::new()),
        error: Some("Dependency Not Met".to_string()),
        duration: Duration::from_secs(0),
    })
}

fn chain() -> DiGraphMap<usize, ()> {
    let mut graph: DiGraphMap<usize, ()> = DiGraphMap::new();
    graph.add_edge(0, 1, ());
    graph
}

#[test]
fn step_without_dependencies_is_dispatched() {
    let steps = vec![plain("a"), plain("b")];
    let graph = chain();
    let runners = build_runners(&steps, &graph).unwrap();
    let mut table = outstanding_table(2);
    let action = runners[0].poll(&mut table);
    assert_eq!(action, Action::Dispatch(RunType::Command("run-a".to_string())));
    assert_eq!(table, vec![Status::InProgress, Status::Outstanding]);
}

#[test]
fn step_with_outstanding_dependency_waits() {
    let steps = vec![plain("a"), plain("b")];
    let graph = chain();
    let runners = build_runners(&steps, &graph).unwrap();
    let mut table = outstanding_table(2);
    assert_eq!(runners[1].poll(&mut table), Action::Wait);
    assert_eq!(table, vec![Status::Outstanding, Status::Outstanding]);
}

#[test]
fn step_with_dependency_in_progress_waits() {
    let steps = vec![plain("a"), plain("b")];
    let graph = chain();
    let runners = build_runners(&steps, &graph).unwrap();
    let mut table = vec![Status::InProgress, Status::Outstanding];
    assert_eq!(runners[1].poll(&mut table), Action::Wait);
    assert_eq!(table, vec![Status::InProgress, Status::Outstanding]);
}

#[test]
fn step_is_dispatched_once_its_dependency_succeeded() {
    let steps = vec![plain("a"), plain("b")];
    let graph = chain();
    let runners = build_runners(&steps, &graph).unwrap();
    let mut table = vec![Status::Completed(good("x")), Status::Outstanding];
    let action = runners[1].poll(&mut table);
    assert_eq!(action, Action::Dispatch(RunType::Command("run-b".to_string())));
    assert_eq!(table, vec![Status::Completed(good("x")), Status::InProgress]);
}

#[test]
fn step_with_failed_dependency_is_skipped() {
    let steps = vec![plain("a"), plain("b")];
    let graph = chain();
    let runners = build_runners(&steps, &graph).unwrap();
    let mut table = vec![Status::Completed(bad("boom")), Status::Outstanding];
    assert_eq!(runners[1].poll(&mut table), Action::Notify);
    assert_eq!(table, vec![Status::Completed(bad("boom")), unmet()]);
}

#[test]
fn second_poll_does_not_dispatch_again() {
    let steps = vec![plain("a"), plain("b")];
    let graph = chain();
    let runners = build_runners(&steps, &graph).unwrap();
    let mut table = outstanding_table(2);
    assert!(matches!(runners[0].poll(&mut table), Action::Dispatch(_)));
    assert_eq!(runners[0].poll(&mut table), Action::Wait);
    assert_eq!(table, vec![Status::InProgress, Status::Outstanding]);
}

#[test]
fn completed_step_is_left_alone() {
    let steps = vec![plain("a"), plain("b")];
    let graph = chain();
    let runners = build_runners(&steps, &graph).unwrap();
    let mut table = vec![Status::Completed(bad("boom")), Status::Completed(good("kept"))];
    assert_eq!(runners[1].poll(&mut table), Action::Wait);
    assert_eq!(table[1], Status::Completed(good("kept")));
    let mut skipped = vec![Status::Completed(bad("boom")), unmet()];
    assert_eq!(runners[1].poll(&mut skipped), Action::Wait);
    assert_eq!(skipped[1], unmet());
}

#[test]
fn first_dependency_that_has_not_succeeded_decides() {
    let steps = vec![plain("a"), plain("b"), plain("c")];
    let mut waiting_first: DiGraphMap<usize, ()> = DiGraphMap::new();
    waiting_first.add_edge(0, 2, ());
    waiting_first.add_edge(1, 2, ());
    let mut failed_first: DiGraphMap<usize, ()> = DiGraphMap::new();
    failed_first.add_edge(1, 2, ());
    failed_first.add_edge(0, 2, ());
    let start = || vec![Status::Outstanding, Status::Completed(bad("boom")), Status::Outstanding];

    let runners = build_runners(&steps, &waiting_first).unwrap();
    let mut table = start();
    assert_eq!(runners[2].poll(&mut table), Action::Wait);
    assert_eq!(table, start());

    let runners = build_runners(&steps, &failed_first).unwrap();
    let mut table = start();
    assert_eq!(runners[2].poll(&mut table), Action::Notify);
    assert_eq!(table[2], unmet());
}

#[test]
fn step_in_progress_with_failed_dependency_is_marked_skipped() {
    let steps = vec![plain("a"), plain("b")];
    let graph = chain();
    let runners = build_runners(&steps, &graph).unwrap();
    let mut table = vec![Status::Completed(bad("boom")), Status::InProgress];
    assert_eq!(runners[1].poll(&mut table), Action::Notify);
    assert_eq!(table[1], unmet());
}

#[test]
fn poll_looks_at_dependencies_not_at_dependents() {
    let steps = vec![plain("a"), plain("b")];
    let graph = chain();
    let runners = build_runners(&steps, &graph).unwrap();
    let mut table = vec![Status::Outstanding, Status::Completed(bad("boom"))];
    let action = runners[0].poll(&mut table);
    assert_eq!(action, Action::Dispatch(RunType::Command("run-a".to_string())));
}

#[test]
fn dispatch_carries_the_recorded_output_of_the_named_step() {
    let mut steps = vec![plain("a"), plain("b")];
    steps[1].run = RunType::Step("a".to_string());
    let graph = chain();
    let runners = build_runners(&steps, &graph).unwrap();
    let mut table = vec![Status::Completed(good("42")), Status::Outstanding];
    let action = runners[1].poll(&mut table);
    assert_eq!(action, Action::Dispatch(RunType::Step("42".to_string())));
}

#[test]
fn dispatch_keeps_the_name_of_a_step_that_has_not_completed() {
    let mut steps = vec![plain("a"), plain("b")];
    steps[0].run = RunType::Step("b".to_string());
    let graph = chain();
    let runners = build_runners(&steps, &graph).unwrap();
    let mut table = outstanding_table(2);
    let action = runners[0].poll(&mut table);
    assert_eq!(action, Action::Dispatch(RunType::Step("b".to_string())));
}

#[test]
fn completion_order_of_independent_steps_does_not_matter() {
    let steps = vec![plain("a"), plain("b"), plain("c")];
    let mut graph: DiGraphMap<usize, ()> = DiGraphMap::new();
    graph.add_edge(0, 2, ());
    graph.add_edge(1, 2, ());
    let runners = build_runners(&steps, &graph).unwrap();
    let finish = |first: usize, second: usize| {
        let mut table = outstanding_table(3);
        let mut dispatched = Vec::new();
        for runner in runners.iter() {
            if let Action::Dispatch(_) = runner.poll(&mut table) {
                dispatched.push(runner.index);
            }
        }
        assert_eq!(dispatched, vec![0, 1]);
        record_outcome(&mut table, first, good(&format!("out-{}", first)));
        assert_eq!(runners[2].poll(&mut table), Action::Wait);
        record_outcome(&mut table, second, good(&format!("out-{}", second)));
        assert!(matches!(runners[2].poll(&mut table), Action::Dispatch(_)));
        record_outcome(&mut table, 2, good("out-2"));
        table
    };
    assert_eq!(finish(0, 1), finish(1, 0));
}

#[test]
fn record_outcome_completes_the_step() {
    let mut table = vec![Status::InProgress, Status::Outstanding];
    record_outcome(&mut table, 0, good("x"));
    assert_eq!(table, vec![Status::Completed(good("x")), Status::Outstanding]);
}

#[test]
fn dependency_not_met_outcome_has_its_fixed_values() {
    let outcome = Outcome::dependency_not_met();
    assert_eq!(outcome.output, Some(String::new()));
    assert_eq!(outcome.error, Some("Dependency Not Met".to_string()));
    assert_eq!(outcome.duration, Duration::from_secs(0));
    assert_eq!(outcome.duration.as_nanos(), 0);
}

#[test]
fn lookup_finds_the_last_step_of_a_name() {
    let steps = vec![plain("a"), plain("b"), plain("a"), plain("c")];
    assert_eq!(lookup_name(&steps, &"a".to_string()), Some(2));
    assert_eq!(lookup_name(&steps, &"b".to_string()), Some(1));
    assert_eq!(lookup_name(&steps, &"c".to_string()), Some(3));
    assert_eq!(lookup_name(&steps, &"d".to_string()), None);
    let none: Vec<Step<u8, u8, u8>> = Vec::new();
    assert_eq!(lookup_name(&none, &"a".to_string()), None);
}

#[test]
fn references_are_checked_against_the_names() {
    let mut steps = vec![plain("a"), plain("b")];
    assert!(check_references(&steps));
    steps[1].run = RunType::Step("a".to_string());
    assert!(check_references(&steps));
    steps[0].run = RunType::Step("nobody".to_string());
    assert!(!check_references(&steps));
}

#[test]
fn graph_is_checked_against_the_number_of_steps() {
    let mut graph: DiGraphMap<usize, ()> = DiGraphMap::new();
    assert!(check_graph(&graph, 0));
    graph.add_edge(0, 1, ());
    graph.add_edge(1, 2, ());
    assert!(check_graph(&graph, 3));
    assert!(!check_graph(&graph, 2));
    assert!(!check_graph(&graph, 1));
    assert!(check_graph(&graph, 0));
    let mut inward: DiGraphMap<usize, ()> = DiGraphMap::new();
    inward.add_edge(4, 0, ());
    assert!(!check_graph(&inward, 2));
    assert!(check_graph(&inward, 5));
}

#[test]
fn runners_borrow_the_configuration_of_their_steps() {
    let mut steps = vec![plain("a"), plain("b")];
    steps[1].expect = 7;
    let graph = chain();
    let runners: Vec<StepRunner<u8, u8, u8>> = build_runners(&steps, &graph).unwrap();
    assert_eq!(runners.len(), 2);
    assert_eq!(runners[1].index, 1);
    assert_eq!(runners[1].run, RunType::Command("run-b".to_string()));
    assert_eq!(*runners[1].expect, 7);
    assert_eq!(*runners[1].retry, 2);
    assert_eq!(*runners[1].filters, vec![3]);
    assert_eq!(*runners[0].name_lookup, steps);
}

#[test]
fn runners_are_made_only_for_steps_and_graph_that_go_together() {
    let mut steps = vec![plain("a"), plain("b")];
    let mut wide: DiGraphMap<usize, ()> = DiGraphMap::new();
    wide.add_edge(0, 2, ());
    assert_eq!(build_runners(&steps, &wide).err(), Some(RunError::InvalidGraph));
    steps[1].run = RunType::Step("nobody".to_string());
    assert_eq!(build_runners(&steps, &wide).err(), Some(RunError::UnknownStep));
    assert_eq!(build_runners(&steps, &chain()).err(), Some(RunError::UnknownStep));
    steps[1].run = RunType::Step("a".to_string());
    assert!(build_runners(&steps, &chain()).is_ok());
}

#[test]
fn first_pass_polls_every_step_in_order() {
    let steps = vec![plain("a"), plain("b"), plain("c")];
    let mut graph: DiGraphMap<usize, ()> = DiGraphMap::new();
    graph.add_edge(0, 1, ());
    graph.add_node(2);
    let runners = build_runners(&steps, &graph).unwrap();
    let mut table = outstanding_table(3);
    let asked = activate(&runners, &mut table);
    assert_eq!(
        asked,
        vec![
            (0, Action::Dispatch(RunType::Command("run-a".to_string()))),
            (1, Action::Wait),
            (2, Action::Dispatch(RunType::Command("run-c".to_string()))),
        ]
    );
    assert_eq!(table, vec![Status::InProgress, Status::Outstanding, Status::InProgress]);
}

#[test]
fn signal_wakes_the_dependents_in_the_order_of_the_graph() {
    let steps = vec![plain("a"), plain("b"), plain("c"), plain("d")];
    let mut graph: DiGraphMap<usize, ()> = DiGraphMap::new();
    graph.add_edge(0, 2, ());
    graph.add_edge(0, 1, ());
    graph.add_edge(3, 1, ());
    let runners = build_runners(&steps, &graph).unwrap();
    let mut table = outstanding_table(4);
    activate(&runners, &mut table);
    record_outcome(&mut table, 0, good("x"));
    let asked = wake(&runners, 0, &mut table);
    assert_eq!(
        asked,
        vec![(2, Action::Dispatch(RunType::Command("run-c".to_string()))), (1, Action::Wait)]
    );
    record_outcome(&mut table, 3, bad("boom"));
    assert_eq!(wake(&runners, 3, &mut table), vec![(1, Action::Notify)]);
    assert_eq!(table[1], unmet());
    assert_eq!(wake(&runners, 1, &mut table), Vec::new());
}

#[test]
fn outstanding_table_has_one_entry_per_step() {
    assert_eq!(outstanding_table(0), Vec::<Status>::new());
    assert_eq!(
        outstanding_table(3),
        vec![Status::Outstanding, Status::Outstanding, Status::Outstanding]
    );
}

#[test]
fn outcomes_are_collected_from_completed_steps_only() {
    let mut steps = vec![plain("a"), plain("b"), plain("c")];
    steps[1].outcome = Some(good("old"));
    let table = vec![Status::Completed(good("new")), Status::InProgress, Status::Outstanding];
    collect_outcomes(&mut steps, table);
    assert_eq!(steps[0].outcome, Some(good("new")));
    assert_eq!(steps[1].outcome, Some(good("old")));
    assert_eq!(steps[2].outcome, None);
    assert_eq!(steps[0].name, "a");
}

#[test]
fn clones_equal_what_they_were_made_from() {
    let outcome = Outcome {
        output: Some("out".to_string()),
        error: None,
        duration: Duration::from_millis(1500),
    };
    assert_eq!(outcome.clone(), outcome);
    assert_eq!(bad("boom").clone(), bad("boom"));
    let command = RunType::Command("echo".to_string());
    assert_eq!(command.clone(), command);
    let named = RunType::Step("a".to_string());
    assert_eq!(named.clone(), named);
    assert_eq!(Status::InProgress.clone(), Status::InProgress);
    assert_eq!(Status::Outstanding.clone(), Status::Outstanding);
    assert_eq!(Status::Completed(good("x")).clone(), Status::Completed(good("x")));
}
