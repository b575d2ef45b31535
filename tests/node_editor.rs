use iced_core::Point;
use iced_palace::widget::node_editor::{Data, Graph, Input, Link, Node, Output};

#[derive(Debug, Clone, Copy)]
enum Instruction {
    Number { n: u32, output: Output<u32> },
    Add { a: Input<u32>, b: Input<u32>, output: Output<u32> },
    Display(Input<u32>),
}

fn evaluate(instruction: &mut Instruction, data: &mut Data<u32>) {
    match instruction {
        Instruction::Number { n, output } => data.set(output, *n),
        Instruction::Add { a, b, output } => {
            let (a, b) = (*a, *b);
            data.set_with(output, |data| Some(*data.get(&a)? + *data.get(&b)?));
        }
        Instruction::Display(_) => {}
    }
}

type Evaluate = fn(&mut Instruction, &mut Data<u32>);

struct Example {
    graph: Graph<Instruction, u32, Evaluate>,
    a: Node,
    b: Node,
    add: Node,
    display: Node,
    a_output: Output<u32>,
    b_output: Output<u32>,
    add_a: Input<u32>,
    add_b: Input<u32>,
    add_result: Output<u32>,
    display_value: Input<u32>,
}

fn number(graph: &mut Graph<Instruction, u32, Evaluate>, n: u32) -> (Node, Output<u32>) {
    let mut builder = graph.build();
    let node = builder.id();
    let output = builder.output("output");
    builder.finish(Point::new(10.0, 10.0), Instruction::Number { n, output });
    (node, output)
}

fn example() -> Example {
    let mut graph: Graph<Instruction, u32, Evaluate> = Graph::new(evaluate as Evaluate);
    let (a, a_output) = number(&mut graph, 1);
    let (b, b_output) = number(&mut graph, 2);

    let mut builder = graph.build();
    let add = builder.id();
    let add_a = builder.input("a");
    let add_b = builder.input("b");
    let add_result = builder.output("result");
    builder.finish(
        Point::new(300.0, 100.0),
        Instruction::Add { a: add_a, b: add_b, output: add_result },
    );

    let mut builder = graph.build();
    let display = builder.id();
    let display_value = builder.input("value");
    builder.finish(Point::new(300.0, 200.0), Instruction::Display(display_value));

    Example {
        graph,
        a,
        b,
        add,
        display,
        a_output,
        b_output,
        add_a,
        add_b,
        add_result,
        display_value,
    }
}

fn linked() -> Example {
    let mut e = example();
    e.graph.link(Link::from((e.a_output, e.add_a)));
    e.graph.link(Link::from((e.b_output, e.add_b)));
    e.graph.link(Link::from((e.add_result, e.display_value)));
    e
}

fn set_number(graph: &mut Graph<Instruction, u32, Evaluate>, node: Node, value: u32) {
    graph.update(node, |instruction, _| {
        if let Instruction::Number { n, .. } = instruction {
            *n = value;
        }
    });
}

#[test]
fn sum_reaches_display_and_follows_updates() {
    let mut e = linked();
    assert_eq!(e.graph.input(&e.display_value), Some(&3));
    set_number(&mut e.graph, e.a, 5);
    assert_eq!(e.graph.input(&e.display_value), Some(&7));
    assert_eq!(e.graph.input(&e.add_b), Some(&2));
    set_number(&mut e.graph, e.a, 6);
    assert_eq!(e.graph.input(&e.display_value), Some(&8));
}

#[test]
fn unlinked_input_reads_nothing() {
    let e = example();
    assert_eq!(e.graph.input(&e.display_value), None);
    assert_eq!(e.graph.input(&e.add_a), None);
}

#[test]
fn half_linked_sum_reads_nothing() {
    let mut e = example();
    e.graph.link(Link::from((e.a_output, e.add_a)));
    e.graph.link(Link::from((e.add_result, e.display_value)));
    assert_eq!(e.graph.input(&e.add_a), Some(&1));
    assert_eq!(e.graph.input(&e.display_value), None);
}

#[test]
fn dependencies_of_display_are_the_three_others() {
    let e = linked();
    let mut dependencies = e.graph.dependencies(e.display);
    dependencies.sort();
    let mut expected = vec![e.a, e.b, e.add];
    expected.sort();
    assert_eq!(dependencies, expected);
    assert!(e.graph.dependencies(e.a).is_empty());
}

#[test]
fn schedule_of_display_runs_inputs_first() {
    let e = linked();
    let schedule = e.graph.schedule(e.display);
    assert_eq!(schedule.len(), 4);
    assert_eq!(schedule[3], e.display);
    assert_eq!(schedule[2], e.add);
    let mut first = vec![schedule[0], schedule[1]];
    first.sort();
    let mut expected = vec![e.a, e.b];
    expected.sort();
    assert_eq!(first, expected);
}

#[test]
fn schedule_with_both_inputs_from_one_node() {
    let mut e = example();
    e.graph.link(Link::from((e.a_output, e.add_a)));
    e.graph.link(Link::from((e.a_output, e.add_b)));
    e.graph.link(Link::from((e.add_result, e.display_value)));
    assert_eq!(e.graph.input(&e.display_value), Some(&2));
    assert_eq!(e.graph.schedule(e.display), vec![e.a, e.add, e.display]);
}

#[test]
fn schedule_of_a_root_is_itself() {
    let e = linked();
    assert_eq!(e.graph.schedule(e.a), vec![e.a]);
}

#[test]
fn relinking_an_input_replaces_its_link() {
    let mut e = linked();
    e.graph.link(Link::from((e.b_output, e.add_a)));
    assert_eq!(e.graph.input(&e.add_a), Some(&2));
    assert_eq!(e.graph.input(&e.display_value), Some(&4));
    let mut dependencies = e.graph.dependencies(e.add);
    dependencies.sort();
    assert_eq!(dependencies, vec![e.b]);
    set_number(&mut e.graph, e.a, 7);
    assert_eq!(e.graph.input(&e.display_value), Some(&4));
}

#[test]
fn input_reads_fresh_value_after_upstream_update() {
    let mut e = linked();
    for value in [10, 0, 42] {
        set_number(&mut e.graph, e.b, value);
        assert_eq!(e.graph.input(&e.add_b), Some(&value));
        assert_eq!(e.graph.input(&e.display_value), Some(&(1 + value)));
    }
}

#[test]
fn invalidating_twice_keeps_values() {
    let mut e = linked();
    e.graph.update(e.a, |_, _| ());
    let first = (
        e.graph.input(&e.add_a).copied(),
        e.graph.input(&e.add_b).copied(),
        e.graph.input(&e.display_value).copied(),
    );
    e.graph.update(e.a, |_, _| ());
    let second = (
        e.graph.input(&e.add_a).copied(),
        e.graph.input(&e.add_b).copied(),
        e.graph.input(&e.display_value).copied(),
    );
    assert_eq!(first, (Some(1), Some(2), Some(3)));
    assert_eq!(first, second);
}

#[test]
fn update_of_missing_node_returns_default() {
    let mut e = linked();
    let mut builder = e.graph.build();
    let missing = builder.id();
    drop(builder);
    let result = e.graph.update(missing, |_, _| 9u32);
    assert_eq!(result, 0);
    let result = e.graph.update(e.a, |_, _| 9u32);
    assert_eq!(result, 9);
    assert!(e.graph.get(missing).is_none());
}

#[test]
fn get_returns_state() {
    let mut e = linked();
    set_number(&mut e.graph, e.a, 5);
    match e.graph.get(e.a) {
        Some(Instruction::Number { n, .. }) => assert_eq!(*n, 5),
        _ => panic!("node a is a number"),
    }
}

#[test]
fn node_ids_increase() {
    let e = example();
    assert!(e.a < e.b);
    assert!(e.b < e.add);
    assert!(e.add < e.display);
}

#[test]
fn move_to_changes_no_value() {
    let mut e = linked();
    e.graph.move_to(e.add, Point::new(1.0, 2.0));
    assert_eq!(e.graph.input(&e.display_value), Some(&3));
}

fn sneaky(instruction: &mut Instruction, data: &mut Data<u32>) {
    if let Instruction::Add { output, .. } = instruction {
        data.set(output, 100);
    }
    if let Instruction::Number { output, n } = instruction {
        data.set(output, *n);
    }
}

#[test]
fn evaluation_sets_only_own_outputs() {
    // A node whose state holds another node's output handle cannot write
    // to that output.
    let mut graph: Graph<Instruction, u32, Evaluate> = Graph::new(sneaky as Evaluate);
    let (a, a_output) = number(&mut graph, 1);
    let mut builder = graph.build();
    let b = builder.id();
    let b_input = builder.input("value");
    builder.finish(Point::new(0.0, 0.0), Instruction::Display(b_input));
    let mut builder = graph.build();
    let c_input = builder.input("value");
    builder.finish(Point::new(0.0, 0.0), Instruction::Number { n: 77, output: a_output });
    graph.link(Link::from((a_output, b_input)));
    graph.link(Link::from((a_output, c_input)));
    assert_eq!(graph.input(&b_input), Some(&1));
    set_number(&mut graph, a, 2);
    assert_eq!(graph.input(&b_input), Some(&2));
    assert!(graph.get(b).is_some());
}

fn declining(instruction: &mut Instruction, data: &mut Data<u32>) {
    if let Instruction::Number { n, output } = instruction {
        data.set(output, *n);
        let n = *n;
        data.set_with(output, |_| if n > 10 { None } else { Some(n * 2) });
    }
}

#[test]
fn declining_to_produce_clears_the_value() {
    let mut graph: Graph<Instruction, u32, Evaluate> = Graph::new(declining as Evaluate);
    let (a, a_output) = number(&mut graph, 3);
    let mut builder = graph.build();
    let input = builder.input("value");
    builder.finish(Point::new(0.0, 0.0), Instruction::Display(input));
    graph.link(Link::from((a_output, input)));
    assert_eq!(graph.input(&input), Some(&6));
    set_number(&mut graph, a, 11);
    assert_eq!(graph.input(&input), None);
}

#[test]
fn push_builds_and_evaluates() {
    let mut graph: Graph<Instruction, u32, Evaluate> = Graph::new(evaluate as Evaluate);
    let mut handles = None;
    graph.push(Point::new(0.0, 0.0), |builder| {
        let output = builder.output("output");
        handles = Some((builder.id(), output));
        Instruction::Number { n: 4, output }
    });
    let (node, output) = handles.unwrap();
    let mut builder = graph.build();
    let input = builder.input("value");
    builder.finish(Point::new(0.0, 0.0), Instruction::Display(input));
    graph.link(Link::from((output, input)));
    assert_eq!(graph.input(&input), Some(&4));
    assert!(graph.get(node).is_some());
}

#[test]
fn cycles_terminate() {
    let mut e = linked();
    // The sum feeds its own first input: each pass evaluates it once.
    e.graph.link(Link::from((e.add_result, e.add_a)));
    assert_eq!(e.graph.input(&e.add_b), Some(&2));
    set_number(&mut e.graph, e.b, 3);
    assert_eq!(e.graph.input(&e.add_b), Some(&3));
    let dependencies = e.graph.dependencies(e.add);
    assert_eq!(dependencies, vec![e.b]);
    assert_eq!(e.graph.schedule(e.add), vec![e.b, e.add]);
}

#[test]
fn unfinished_node_is_not_expanded() {
    let mut e = linked();
    let mut builder = e.graph.build();
    let unfinished = builder.id();
    let unfinished_input: Input<u32> = builder.input("value");
    let unfinished_output: Output<u32> = builder.output("output");
    drop(builder);
    e.graph.link(Link::from((e.a_output, unfinished_input)));
    e.graph.link(Link::from((unfinished_output, e.add_b)));
    assert!(e.graph.dependencies(unfinished).is_empty());
    assert_eq!(e.graph.schedule(unfinished), vec![unfinished]);
    let mut dependencies = e.graph.dependencies(e.add);
    dependencies.sort();
    let mut expected = vec![e.a, unfinished];
    expected.sort();
    assert_eq!(dependencies, expected);
    assert_eq!(e.graph.input(&e.add_b), None);
    assert_eq!(e.graph.input(&e.display_value), None);
    let schedule = e.graph.schedule(e.display);
    assert_eq!(schedule.len(), 4);
    assert_eq!(schedule[2], e.add);
    assert_eq!(schedule[3], e.display);
}

fn add_node(graph: &mut Graph<Instruction, u32, Evaluate>) -> (Node, Input<u32>, Input<u32>, Output<u32>) {
    let mut builder = graph.build();
    let node = builder.id();
    let a = builder.input("a");
    let b = builder.input("b");
    let output = builder.output("result");
    builder.finish(Point::new(0.0, 0.0), Instruction::Add { a, b, output });
    (node, a, b, output)
}

#[test]
fn breadth_first_passes_can_read_stale_values() {
    // A feeds P, C and D directly, and also through P -> C -> D; breadth
    // first, D and C run before the nodes they read from in the same pass.
    let mut graph: Graph<Instruction, u32, Evaluate> = Graph::new(evaluate as Evaluate);
    let (a, a_output) = number(&mut graph, 1);
    let (_, zero) = number(&mut graph, 0);
    let (_, p_a, p_b, p_out) = add_node(&mut graph);
    let (_, c_a, c_b, c_out) = add_node(&mut graph);
    let (_, d_a, d_b, d_out) = add_node(&mut graph);
    let mut builder = graph.build();
    let shown = builder.input("value");
    builder.finish(Point::new(0.0, 0.0), Instruction::Display(shown));
    graph.link(Link::from((a_output, d_b)));
    graph.link(Link::from((a_output, c_b)));
    graph.link(Link::from((a_output, p_a)));
    graph.link(Link::from((zero, p_b)));
    graph.link(Link::from((p_out, c_a)));
    graph.link(Link::from((c_out, d_a)));
    graph.link(Link::from((d_out, shown)));
    assert_eq!(graph.input(&shown), Some(&3));
    set_number(&mut graph, a, 2);
    assert_eq!(graph.input(&shown), Some(&4));
    graph.update(a, |_, _| ());
    assert_eq!(graph.input(&shown), Some(&5));
    graph.update(a, |_, _| ());
    assert_eq!(graph.input(&shown), Some(&6));
    graph.update(a, |_, _| ());
    assert_eq!(graph.input(&shown), Some(&6));
}
