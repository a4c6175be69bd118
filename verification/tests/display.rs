use graph_log::display::{connection_name_of, Display, Graph, MessageStatus, Node};
use graph_log::log::{parse, Log};

fn pair(g: &str, n: &str) -> (String, String) {
    (g.to_string(), n.to_string())
}

fn graph<'a>(d: &'a Display, name: &str) -> &'a Graph {
    d.graphs().iter().find(|g| g.name == name).expect("graph")
}

fn node<'a>(d: &'a Display, g: &str, n: &str) -> &'a Node {
    graph(d, g).nodes.iter().find(|x| x.name == n).expect("node")
}

#[test]
fn new_display_is_empty() {
    let d = Display::new();
    assert!(d.graphs().is_empty());
    assert!(d.connections().is_empty());
}

#[test]
fn first_graph_in_column_zero_later_in_fifty() {
    let mut d = Display::new();
    d.register_graph("g".to_string());
    d.register_graph("h".to_string());
    d.register_graph("g".to_string());
    assert_eq!(d.graphs().len(), 2);
    assert_eq!(graph(&d, "g").x, 0);
    assert_eq!(graph(&d, "h").x, 50);
    assert!(graph(&d, "g").nodes.is_empty());
}

#[test]
fn register_places_nodes_in_rows() {
    let mut d = Display::new();
    d.update(Log::Register(pair("g", "a")));
    d.update(Log::Register(pair("g", "b")));
    d.update(Log::Register(pair("h", "c")));
    assert_eq!(node(&d, "g", "a").row, 0);
    assert_eq!(node(&d, "g", "b").row, 1);
    assert_eq!(node(&d, "g", "b").x, 0);
    assert_eq!(node(&d, "h", "c").row, 0);
    assert_eq!(node(&d, "h", "c").x, 50);
    assert_eq!(node(&d, "g", "a").value, "");
}

#[test]
fn reregistering_moves_node_to_count_row() {
    let mut d = Display::new();
    d.register(pair("g", "a"));
    d.register(pair("g", "b"));
    d.register(pair("g", "a"));
    assert_eq!(graph(&d, "g").nodes.len(), 2);
    assert_eq!(node(&d, "g", "a").row, 2);
}

#[test]
fn check_registers_only_missing_nodes() {
    let mut d = Display::new();
    d.register(pair("g", "a"));
    d.register(pair("g", "b"));
    d.check(pair("g", "a"));
    assert_eq!(node(&d, "g", "a").row, 0);
    d.check(pair("g", "c"));
    assert_eq!(node(&d, "g", "c").row, 2);
    d.check(pair("g", "c"));
    assert_eq!(graph(&d, "g").nodes.len(), 3);
}

#[test]
fn connection_name_format() {
    assert_eq!(connection_name_of(&pair("g", "a"), &pair("k", "z")), "g:a k:z");
}

#[test]
fn send_registers_ends_and_keeps_first_connection() {
    let mut d = Display::new();
    d.update(Log::Register(pair("g", "a")));
    d.update(Log::Register(pair("g", "b")));
    d.update(Log::Register(pair("g", "a")));
    d.update(Log::Send(
        pair("g", "a"),
        pair("k", "z"),
        vec!["p".to_string(), "q".to_string()],
        true,
    ));
    assert_eq!(d.connections().len(), 1);
    let (name, c) = &d.connections()[0];
    assert_eq!(name, "g:a k:z");
    assert_eq!(c.from, pair("g", "a"));
    assert_eq!(c.to, pair("k", "z"));
    assert_eq!(c.text, "p q");
    assert!(matches!(c.status, MessageStatus::Received));
    assert_eq!((c.from_x, c.from_row), (0, 2));
    assert_eq!((c.to_x, c.to_row), (50, 0));
    assert_eq!(node(&d, "k", "z").x, 50);

    d.update(Log::Send(pair("g", "a"), pair("k", "z"), vec![], false));
    assert_eq!(d.connections().len(), 1);
    let (_, c) = &d.connections()[0];
    assert!(matches!(c.status, MessageStatus::Received));
    assert_eq!(c.text, "p q");
}

#[test]
fn send_without_args_has_empty_text_and_is_sending() {
    let mut d = Display::new();
    d.update(parse("a -> b").expect("send"));
    let (name, c) = &d.connections()[0];
    assert_eq!(name, "top-level:a top-level:b");
    assert_eq!(c.text, "");
    assert!(matches!(c.status, MessageStatus::Sending));
    assert_eq!((c.from_row, c.to_row), (0, 1));
    assert_eq!(graph(&d, "top-level").x, 0);
}

#[test]
fn log_of_lines_builds_the_scene() {
    let mut d = Display::new();
    for line in ["sup", "sup -start-> fare:0", "sup -stop-> fare:1 ...", "fare:0 -> sup ..."] {
        if let Some(log) = parse(line) {
            d.update(log);
        }
    }
    assert_eq!(d.graphs().len(), 2);
    assert_eq!(graph(&d, "fare").nodes.len(), 2);
    assert_eq!(d.connections().len(), 3);
    assert_eq!(node(&d, "fare", "1").row, 1);
}

#[test]
fn check_twice_is_check_once() {
    let mut d = Display::new();
    d.register(pair("g", "a"));
    d.check(pair("h", "b"));
    let rows: Vec<usize> = graph(&d, "h").nodes.iter().map(|n| n.row).collect();
    d.check(pair("h", "b"));
    let rows_again: Vec<usize> = graph(&d, "h").nodes.iter().map(|n| n.row).collect();
    assert_eq!(rows, rows_again);
    assert_eq!(d.graphs().len(), 2);
}
