use thrust_build::graph::{detect_cycles, topological_sort, Adjacency};

fn s(x: &str) -> String {
    x.to_string()
}

fn names(xs: &[&str]) -> Vec<String> {
    xs.iter().map(|x| x.to_string()).collect()
}

fn adjacency(entries: &[(&str, &[&str])]) -> Adjacency {
    let mut a = Adjacency::new();
    for (k, deps) in entries {
        a.insert(s(k), names(deps));
    }
    a
}

fn position(order: &[String], x: &str) -> usize {
    order.iter().position(|n| n == x).unwrap()
}

#[test]
fn adjacency_get_returns_inserted_deps() {
    let mut a = Adjacency::new();
    a.insert(s("A"), names(&["B"]));
    a.insert(s("B"), names(&[]));
    assert_eq!(a.get(&s("A")), Some(&names(&["B"])));
    assert_eq!(a.get(&s("B")), Some(&names(&[])));
    assert_eq!(a.get(&s("C")), None);
}

#[test]
fn adjacency_insert_replaces_existing_entry() {
    let mut a = Adjacency::new();
    a.insert(s("A"), names(&["B"]));
    a.insert(s("A"), names(&["C", "D"]));
    assert_eq!(a.get(&s("A")), Some(&names(&["C", "D"])));
}

#[test]
fn no_cycle_in_chain() {
    let a = adjacency(&[("A", &["B"]), ("B", &["C"]), ("C", &[])]);
    assert_eq!(detect_cycles(&a, &names(&["A", "B", "C"])), None);
}

#[test]
fn two_node_cycle_is_reported() {
    let a = adjacency(&[("A", &["B"]), ("B", &["A"])]);
    let cycle = detect_cycles(&a, &names(&["A", "B"])).unwrap();
    assert_eq!(cycle, names(&["A", "B", "A"]));
}

#[test]
fn self_dependency_is_a_cycle() {
    let a = adjacency(&[("A", &["A"])]);
    let cycle = detect_cycles(&a, &names(&["A"])).unwrap();
    assert_eq!(cycle, names(&["A", "A"]));
}

#[test]
fn cycle_reached_through_a_prefix_is_reported_with_it() {
    let a = adjacency(&[("Root", &["X"]), ("X", &["Y"]), ("Y", &["X"])]);
    let cycle = detect_cycles(&a, &names(&["Root"])).unwrap();
    assert_eq!(cycle, names(&["X", "Y", "X", "Root"]));
}

#[test]
fn diamond_is_not_a_cycle() {
    let a = adjacency(&[("A", &["B", "C"]), ("B", &["D"]), ("C", &["D"]), ("D", &[])]);
    assert_eq!(detect_cycles(&a, &names(&["A", "B", "C", "D"])), None);
}

#[test]
fn topological_order_puts_dependencies_first() {
    let a = adjacency(&[("A", &["B", "C"]), ("B", &["D"]), ("C", &["D"]), ("D", &[])]);
    let order = topological_sort(&a, &names(&["A", "B", "C", "D"]));
    assert_eq!(order.len(), 4);
    assert!(position(&order, "D") < position(&order, "B"));
    assert!(position(&order, "D") < position(&order, "C"));
    assert!(position(&order, "B") < position(&order, "A"));
    assert!(position(&order, "C") < position(&order, "A"));
}

#[test]
fn topological_order_lists_repeated_names_once() {
    let a = adjacency(&[("A", &[]), ("B", &["A", "A"])]);
    let order = topological_sort(&a, &names(&["B", "A", "B"]));
    assert_eq!(order, names(&["A", "B"]));
}

#[test]
fn topological_order_leaves_out_cycles_and_their_dependents() {
    let a = adjacency(&[("A", &["B"]), ("B", &["A"]), ("C", &["A"]), ("D", &[])]);
    let order = topological_sort(&a, &names(&["A", "B", "C", "D"]));
    assert_eq!(order, names(&["D"]));
}

#[test]
fn topological_order_leaves_out_nodes_depending_on_unknown_names() {
    let a = adjacency(&[("A", &["Missing"]), ("B", &[])]);
    let order = topological_sort(&a, &names(&["A", "B"]));
    assert_eq!(order, names(&["B"]));
}

#[test]
fn acyclic_closed_graph_orders_every_name() {
    let a = adjacency(&[("E", &["A", "B"]), ("A", &["B"]), ("B", &[]), ("C", &["E"])]);
    let all = names(&["E", "A", "B", "C"]);
    assert_eq!(detect_cycles(&a, &all), None);
    let order = topological_sort(&a, &all);
    let mut sorted = order.clone();
    sorted.sort();
    assert_eq!(sorted, names(&["A", "B", "C", "E"]));
}

#[test]
fn cycle_report_follows_dependency_order() {
    let a = adjacency(&[("A", &["B", "C"]), ("B", &["A"]), ("C", &["A"])]);
    assert_eq!(detect_cycles(&a, &names(&["A", "B", "C"])), Some(names(&["A", "B", "A"])));
    let b = adjacency(&[("A", &["C", "B"]), ("B", &["A"]), ("C", &["A"])]);
    assert_eq!(detect_cycles(&b, &names(&["A", "B", "C"])), Some(names(&["A", "C", "A"])));
    assert_eq!(detect_cycles(&b, &names(&["C", "A", "B"])), Some(names(&["C", "A", "C"])));
}

#[test]
fn topological_order_is_reproducible() {
    let a = adjacency(&[("A", &[]), ("B", &["A"]), ("C", &["A"]), ("D", &["B", "C"])]);
    let first = topological_sort(&a, &names(&["D", "C", "B", "A"]));
    let second = topological_sort(&a, &names(&["D", "C", "B", "A"]));
    assert_eq!(first, names(&["A", "B", "C", "D"]));
    assert_eq!(first, second);
}
