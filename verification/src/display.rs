//! What the graph display keeps of the log: the graphs, the nodes registered
//! in them with their place in the layout, and the connections (messages)
//! between nodes.
//!
//! A graph stands in a column: the first graph at `x = 0`, every later one at
//! `x = 50`. A node stands in its graph's column, in the row given by the
//! number of nodes its graph held when the node was registered. A connection
//! records where its two end nodes stood when it was first seen, and is kept
//! as it was from then on.

use vstd::prelude::*;
use crate::keyed::{
    keyed, keys_distinct, lemma_keyed_dom, lemma_keyed_index, lemma_keyed_len, lemma_keyed_push,
    lemma_keyed_update,
};
use crate::log::{Log, LogView};
use crate::text::{append_str, join, join_parts, push_char, strings_view};

verus! {

/// The state of a message between two nodes.
#[derive(Clone, Copy, Debug)]
pub enum MessageStatus {
    Received,
    Sending,
    Error,
    Warning,
}

/// A node of a graph: its name, its value, and its place in the layout (the
/// column of its graph and its row).
#[derive(Debug)]
pub struct Node {
    pub name: String,
    pub value: String,
    pub x: u64,
    pub row: usize,
}

/// What a node holds besides its name.
pub struct NodeView {
    pub value: Seq<char>,
    pub x: u64,
    pub row: nat,
}

impl View for Node {
    type V = NodeView;

    open spec fn view(&self) -> NodeView {
        NodeView { value: self.value@, x: self.x, row: self.row as nat }
    }
}

/// The name of a node.
pub open spec fn node_key() -> spec_fn(Node) -> Seq<char> {
    |n: Node| n.name@
}

/// The view of a node.
pub open spec fn node_val() -> spec_fn(Node) -> NodeView {
    |n: Node| n@
}

/// A graph: its name, its nodes, and its column.
#[derive(Debug)]
pub struct Graph {
    pub name: String,
    pub nodes: Vec<Node>,
    pub x: u64,
}

/// What a graph holds besides its name: its column and its nodes by name.
pub struct GraphView {
    pub x: u64,
    pub nodes: Map<Seq<char>, NodeView>,
}

impl View for Graph {
    type V = GraphView;

    open spec fn view(&self) -> GraphView {
        GraphView { x: self.x, nodes: keyed(self.nodes@, node_key(), node_val()) }
    }
}

/// The name of a graph.
pub open spec fn graph_key() -> spec_fn(Graph) -> Seq<char> {
    |g: Graph| g.name@
}

/// The view of a graph.
pub open spec fn graph_val() -> spec_fn(Graph) -> GraphView {
    |g: Graph| g@
}

/// A message from one node to another: its end nodes as `(graph, node)`
/// pairs, its arguments and their text, its status, and the places of the
/// sender and the receiver when it was first seen.
#[derive(Debug)]
pub struct Connection {
    pub from: (String, String),
    pub to: (String, String),
    pub args: Vec<String>,
    pub text: String,
    pub status: MessageStatus,
    pub from_x: u64,
    pub from_row: usize,
    pub to_x: u64,
    pub to_row: usize,
}

/// A connection with its strings taken as character sequences.
pub struct ConnectionView {
    pub from: (Seq<char>, Seq<char>),
    pub to: (Seq<char>, Seq<char>),
    pub args: Seq<Seq<char>>,
    pub text: Seq<char>,
    pub status: MessageStatus,
    pub from_x: u64,
    pub from_row: nat,
    pub to_x: u64,
    pub to_row: nat,
}

impl View for Connection {
    type V = ConnectionView;

    open spec fn view(&self) -> ConnectionView {
        ConnectionView {
            from: (self.from.0@, self.from.1@),
            to: (self.to.0@, self.to.1@),
            args: strings_view(self.args@),
            text: self.text@,
            status: self.status,
            from_x: self.from_x,
            from_row: self.from_row as nat,
            to_x: self.to_x,
            to_row: self.to_row as nat,
        }
    }
}

/// The name under which a connection is kept.
pub open spec fn conn_key() -> spec_fn((String, Connection)) -> Seq<char> {
    |c: (String, Connection)| c.0@
}

/// The view of a kept connection.
pub open spec fn conn_val() -> spec_fn((String, Connection)) -> ConnectionView {
    |c: (String, Connection)| c.1@
}

/// The graphs and the connections that the display keeps.
pub struct Display {
    graphs: Vec<Graph>,
    connections: Vec<(String, Connection)>,
}

/// The graphs by name, and the connections by name.
pub struct DisplayView {
    pub graphs: Map<Seq<char>, GraphView>,
    pub connections: Map<Seq<char>, ConnectionView>,
}

impl View for Display {
    type V = DisplayView;

    closed spec fn view(&self) -> DisplayView {
        DisplayView {
            graphs: keyed(self.graphs@, graph_key(), graph_val()),
            connections: keyed(self.connections@, conn_key(), conn_val()),
        }
    }
}

/// Whether the node `p.1` of the graph `p.0` is registered in `d`.
pub open spec fn has_node(d: DisplayView, p: (Seq<char>, Seq<char>)) -> bool {
    d.graphs.dom().contains(p.0) && d.graphs[p.0].nodes.dom().contains(p.1)
}

/// The invariant of the display: finitely many graphs and nodes; every graph
/// in column 0 or 50, exactly one (the first) in column 0; every node in its
/// graph's column; and both end nodes of every connection registered.
pub open spec fn view_inv(d: DisplayView) -> bool {
    &&& d.graphs.dom().finite()
    &&& forall|g: Seq<char>| #[trigger]
        d.graphs.dom().contains(g) ==> d.graphs[g].nodes.dom().finite() && (d.graphs[g].x == 0
            || d.graphs[g].x == 50)
    &&& forall|g1: Seq<char>, g2: Seq<char>|
        #![trigger d.graphs.dom().contains(g1), d.graphs.dom().contains(g2)]
        d.graphs.dom().contains(g1) && d.graphs.dom().contains(g2) && d.graphs[g1].x == 0
            && d.graphs[g2].x == 0 ==> g1 == g2
    &&& d.graphs.dom().len() > 0 ==> exists|g: Seq<char>| #[trigger]
        d.graphs.dom().contains(g) && d.graphs[g].x == 0
    &&& forall|g: Seq<char>, n: Seq<char>|
        #![trigger d.graphs[g].nodes.dom().contains(n)]
        d.graphs.dom().contains(g) && d.graphs[g].nodes.dom().contains(n)
            ==> d.graphs[g].nodes[n].x == d.graphs[g].x
    &&& forall|k: Seq<char>| #[trigger]
        d.connections.dom().contains(k) ==> has_node(d, d.connections[k].from) && has_node(
            d,
            d.connections[k].to,
        )
}

/// The column of a graph registered in `d`: 0 for the first, 50 after.
pub open spec fn new_graph_x(d: DisplayView) -> u64 {
    if d.graphs.dom().len() == 0 {
        0
    } else {
        50
    }
}

/// `d` after registering the graph `name`, which leaves a registered graph
/// as it is and adds a new one, empty, in its column.
pub open spec fn register_graph_spec(d: DisplayView, name: Seq<char>) -> DisplayView {
    if d.graphs.dom().contains(name) {
        d
    } else {
        DisplayView {
            graphs: d.graphs.insert(name, GraphView { x: new_graph_x(d), nodes: Map::empty() }),
            connections: d.connections,
        }
    }
}

/// `d` after registering the node `p.1` of the graph `p.0`: the graph is
/// registered if it is not, and the node is set, with an empty value, in the
/// graph's column and in the row given by the number of nodes that the graph
/// holds (the node itself counted, if it was registered before).
pub open spec fn register_spec(d: DisplayView, p: (Seq<char>, Seq<char>)) -> DisplayView {
    let d1 = register_graph_spec(d, p.0);
    let g = d1.graphs[p.0];
    DisplayView {
        graphs: d1.graphs.insert(
            p.0,
            GraphView {
                x: g.x,
                nodes: g.nodes.insert(p.1, NodeView { value: seq![], x: g.x, row: g.nodes.dom().len() }),
            },
        ),
        connections: d1.connections,
    }
}

/// `d` after making sure that the node `p` is registered: unchanged where it
/// is, registered where it is not.
pub open spec fn check_spec(d: DisplayView, p: (Seq<char>, Seq<char>)) -> DisplayView {
    if has_node(d, p) {
        d
    } else {
        register_spec(d, p)
    }
}

/// The name of the connection from `s` to `r`: `graph:node graph:node`.
pub open spec fn connection_name(s: (Seq<char>, Seq<char>), r: (Seq<char>, Seq<char>)) -> Seq<
    char,
> {
    s.0 + seq![':'] + s.1 + seq![' '] + r.0 + seq![':'] + r.1
}

/// A new connection from `s` to `r` in `d`, at the places where `s` and `r`
/// stand.
pub open spec fn new_connection(
    d: DisplayView,
    s: (Seq<char>, Seq<char>),
    r: (Seq<char>, Seq<char>),
    args: Seq<Seq<char>>,
    received: bool,
) -> ConnectionView {
    let sn = d.graphs[s.0].nodes[s.1];
    let rn = d.graphs[r.0].nodes[r.1];
    ConnectionView {
        from: s,
        to: r,
        args: args,
        text: join(args, seq![' ']),
        status: if received {
            MessageStatus::Received
        } else {
            MessageStatus::Sending
        },
        from_x: sn.x,
        from_row: sn.row,
        to_x: rn.x,
        to_row: rn.row,
    }
}

/// `d` after the log entry `log`: a message makes sure that both its nodes
/// are registered and adds its connection unless one of that name is kept
/// already; a name registers its node.
pub open spec fn update_spec(d: DisplayView, log: LogView) -> DisplayView {
    match log {
        LogView::Send(s, r, args, received) => {
            let d1 = check_spec(check_spec(d, s), r);
            let k = connection_name(s, r);
            if d1.connections.dom().contains(k) {
                d1
            } else {
                DisplayView {
                    graphs: d1.graphs,
                    connections: d1.connections.insert(k, new_connection(d1, s, r, args, received)),
                }
            }
        },
        LogView::Register(p) => register_spec(d, p),
    }
}


/// Whether `d2` keeps all of `d`: its graphs with their columns, their nodes,
/// and its connections unchanged.
pub open spec fn keeps(d: DisplayView, d2: DisplayView) -> bool {
    &&& forall|g: Seq<char>| #[trigger]
        d.graphs.dom().contains(g) ==> d2.graphs.dom().contains(g) && d2.graphs[g].x
            == d.graphs[g].x
    &&& forall|g: Seq<char>, n: Seq<char>|
        #![trigger d.graphs[g].nodes.dom().contains(n)]
        d.graphs.dom().contains(g) && d.graphs[g].nodes.dom().contains(n)
            ==> d2.graphs[g].nodes.dom().contains(n)
    &&& forall|k: Seq<char>| #[trigger]
        d.connections.dom().contains(k) ==> d2.connections.dom().contains(k)
            && d2.connections[k] == d.connections[k]
}

proof fn lemma_register_graph(d: DisplayView, name: Seq<char>)
    requires
        view_inv(d),
    ensures
        view_inv(register_graph_spec(d, name)),
        keeps(d, register_graph_spec(d, name)),
        register_graph_spec(d, name).graphs.dom().contains(name),
{
    let d2 = register_graph_spec(d, name);
    if !d.graphs.dom().contains(name) {
        assert(d2.graphs.dom() =~= d.graphs.dom().insert(name));
        if d.graphs.dom().len() == 0 {
            assert(d.graphs.dom() =~= Set::empty());
            assert(d2.graphs.dom().contains(name) && d2.graphs[name].x == 0);
        } else {
            let w = choose|g: Seq<char>| #[trigger] d.graphs.dom().contains(g) && d.graphs[g].x == 0;
            assert(d2.graphs.dom().contains(w) && d2.graphs[w].x == 0);
            assert forall|g1: Seq<char>, g2: Seq<char>|
                d2.graphs.dom().contains(g1) && d2.graphs.dom().contains(g2) && d2.graphs[g1].x
                    == 0 && d2.graphs[g2].x == 0 implies g1 == g2 by {
                assert(d.graphs.dom().contains(g1));
                assert(d.graphs.dom().contains(g2));
            }
        }
        assert forall|k: Seq<char>| #[trigger]
            d2.connections.dom().contains(k) implies has_node(d2, d2.connections[k].from)
            && has_node(d2, d2.connections[k].to) by {
            assert(has_node(d, d.connections[k].from));
            assert(has_node(d, d.connections[k].to));
        }
    }
}

/// Registering the node `p` keeps the invariant and all of `d` but that
/// node's place, and registers `p`.
proof fn lemma_register(d: DisplayView, p: (Seq<char>, Seq<char>))
    requires
        view_inv(d),
    ensures
        view_inv(register_spec(d, p)),
        keeps(d, register_spec(d, p)),
        has_node(register_spec(d, p), p),
{
    lemma_register_graph(d, p.0);
    let d1 = register_graph_spec(d, p.0);
    let d2 = register_spec(d, p);
    assert(d2.graphs.dom() =~= d1.graphs.dom());
    assert(d2.graphs.dom().len() == d1.graphs.dom().len());
    assert forall|g: Seq<char>| #[trigger] d2.graphs.dom().contains(g) implies d2.graphs[g].nodes.dom().finite()
        && (d2.graphs[g].x == 0 || d2.graphs[g].x == 50) by {
        assert(d1.graphs.dom().contains(g));
    }
    assert forall|g1: Seq<char>, g2: Seq<char>|
        d2.graphs.dom().contains(g1) && d2.graphs.dom().contains(g2) && d2.graphs[g1].x == 0
            && d2.graphs[g2].x == 0 implies g1 == g2 by {
        assert(d1.graphs.dom().contains(g1));
        assert(d1.graphs.dom().contains(g2));
        assert(d1.graphs[g1].x == 0);
        assert(d1.graphs[g2].x == 0);
    }
    if d2.graphs.dom().len() > 0 {
        let w = choose|g: Seq<char>| #[trigger] d1.graphs.dom().contains(g) && d1.graphs[g].x == 0;
        assert(d2.graphs.dom().contains(w) && d2.graphs[w].x == 0);
    }
    assert forall|gg: Seq<char>, n: Seq<char>|
        d2.graphs.dom().contains(gg) && #[trigger] d2.graphs[gg].nodes.dom().contains(n) implies d2.graphs[gg].nodes[n].x
        == d2.graphs[gg].x by {
        if gg != p.0 {
            assert(d1.graphs[gg].nodes.dom().contains(n));
        } else if n != p.1 {
            assert(d1.graphs[gg].nodes.dom().contains(n));
        }
    }
    assert forall|k: Seq<char>| #[trigger]
        d2.connections.dom().contains(k) implies has_node(d2, d2.connections[k].from) && has_node(
        d2,
        d2.connections[k].to,
    ) by {
        assert(has_node(d1, d1.connections[k].from));
        assert(has_node(d1, d1.connections[k].to));
    }
    assert forall|gg: Seq<char>, n: Seq<char>|
        d.graphs.dom().contains(gg) && #[trigger] d.graphs[gg].nodes.dom().contains(n)
            implies d2.graphs[gg].nodes.dom().contains(n) by {
        assert(d1.graphs[gg].nodes.dom().contains(n));
    }
}

/// Making sure that `p` is registered keeps the invariant and all of `d`,
/// and leaves `p` registered.
proof fn lemma_check(d: DisplayView, p: (Seq<char>, Seq<char>))
    requires
        view_inv(d),
    ensures
        view_inv(check_spec(d, p)),
        keeps(d, check_spec(d, p)),
        has_node(check_spec(d, p), p),
{
    if !has_node(d, p) {
        lemma_register(d, p);
    }
}

proof fn lemma_keeps_trans(d1: DisplayView, d2: DisplayView, d3: DisplayView)
    requires
        keeps(d1, d2),
        keeps(d2, d3),
    ensures
        keeps(d1, d3),
{
    assert forall|g: Seq<char>, n: Seq<char>|
        d1.graphs.dom().contains(g) && #[trigger] d1.graphs[g].nodes.dom().contains(n)
            implies d3.graphs[g].nodes.dom().contains(n) by {
        assert(d2.graphs[g].nodes.dom().contains(n));
    }
}

/// A law of the display: every log entry keeps the invariant (graphs in
/// column 0 or 50, the first alone in column 0, nodes in their graph's
/// column, both end nodes of every connection registered), and keeps all
/// that was there: no graph, node or connection is dropped, no graph changes
/// column, and a connection, once kept, never changes.
pub proof fn lemma_update_keeps(d: DisplayView, log: LogView)
    requires
        view_inv(d),
    ensures
        view_inv(update_spec(d, log)),
        keeps(d, update_spec(d, log)),
{
    match log {
        LogView::Send(s, r, args, received) => {
            lemma_check(d, s);
            let d0 = check_spec(d, s);
            lemma_check(d0, r);
            let d1 = check_spec(d0, r);
            lemma_keeps_trans(d, d0, d1);
            let k = connection_name(s, r);
            if !d1.connections.dom().contains(k) {
                let d2 = update_spec(d, log);
                assert(has_node(d1, s));
                assert(has_node(d1, r));
                assert forall|kk: Seq<char>| #[trigger]
                    d2.connections.dom().contains(kk) implies has_node(d2, d2.connections[kk].from)
                    && has_node(d2, d2.connections[kk].to) by {
                    if kk != k {
                        assert(d1.connections.dom().contains(kk));
                    }
                }
                assert forall|g: Seq<char>, n: Seq<char>|
                    d.graphs.dom().contains(g) && #[trigger] d.graphs[g].nodes.dom().contains(n)
                        implies d2.graphs[g].nodes.dom().contains(n) by {
                    assert(d1.graphs[g].nodes.dom().contains(n));
                }
            }
        },
        LogView::Register(p) => {
            lemma_register(d, p);
        },
    }
}

/// A law of the display: a message leaves both its nodes registered and a
/// connection kept under its name.
pub proof fn lemma_send_registers_both_ends(
    d: DisplayView,
    s: (Seq<char>, Seq<char>),
    r: (Seq<char>, Seq<char>),
    args: Seq<Seq<char>>,
    received: bool,
)
    requires
        view_inv(d),
    ensures
        has_node(update_spec(d, LogView::Send(s, r, args, received)), s),
        has_node(update_spec(d, LogView::Send(s, r, args, received)), r),
        update_spec(d, LogView::Send(s, r, args, received)).connections.dom().contains(
            connection_name(s, r),
        ),
{
    lemma_check(d, s);
    let d0 = check_spec(d, s);
    lemma_check(d0, r);
    assert(has_node(check_spec(d0, r), s));
}

/// A law of the display: making sure that a node is registered twice does
/// no more than doing it once.
pub proof fn lemma_check_idempotent(d: DisplayView, p: (Seq<char>, Seq<char>))
    requires
        view_inv(d),
    ensures
        check_spec(check_spec(d, p), p) == check_spec(d, p),
{
    lemma_check(d, p);
}


/// Whether every node registered in `d`, except `p`, stands in `d2` just
/// as in `d`: same value, column and row.
pub open spec fn nodes_stay(d: DisplayView, d2: DisplayView, p: Option<(Seq<char>, Seq<char>)>) -> bool {
    forall|g: Seq<char>, n: Seq<char>|
        #![trigger d.graphs[g].nodes.dom().contains(n)]
        has_node(d, (g, n)) && p != Some((g, n)) ==> has_node(d2, (g, n))
            && d2.graphs[g].nodes[n] == d.graphs[g].nodes[n]
}

proof fn lemma_register_nodes_stay(d: DisplayView, p: (Seq<char>, Seq<char>))
    requires
        view_inv(d),
    ensures
        nodes_stay(d, register_spec(d, p), Some(p)),
{
    let d1 = register_graph_spec(d, p.0);
    let d2 = register_spec(d, p);
    assert forall|g: Seq<char>, n: Seq<char>|
        has_node(d, (g, n)) && Some(p) != Some((g, n)) implies has_node(d2, (g, n))
        && d2.graphs[g].nodes[n] == d.graphs[g].nodes[n] by {
        assert(d1.graphs.dom().contains(g));
        assert(d1.graphs[g] == d.graphs[g]);
        if g == p.0 {
            assert(n != p.1);
        }
    }
}

proof fn lemma_check_nodes_stay(d: DisplayView, p: (Seq<char>, Seq<char>))
    requires
        view_inv(d),
    ensures
        nodes_stay(d, check_spec(d, p), None),
{
    if !has_node(d, p) {
        lemma_register_nodes_stay(d, p);
        assert forall|g: Seq<char>, n: Seq<char>|
            #![trigger d.graphs[g].nodes.dom().contains(n)]
            has_node(d, (g, n)) implies p != (g, n) by {}
    }
}

/// A law of the display: a message moves no node. Every node registered
/// before it stands afterwards where it stood, with the same value, column
/// and row; only nodes it names that were missing are added.
pub proof fn lemma_send_moves_no_node(
    d: DisplayView,
    s: (Seq<char>, Seq<char>),
    r: (Seq<char>, Seq<char>),
    args: Seq<Seq<char>>,
    received: bool,
)
    requires
        view_inv(d),
    ensures
        nodes_stay(d, update_spec(d, LogView::Send(s, r, args, received)), None),
{
    lemma_check(d, s);
    let d0 = check_spec(d, s);
    lemma_check_nodes_stay(d, s);
    lemma_check_nodes_stay(d0, r);
    let d2 = update_spec(d, LogView::Send(s, r, args, received));
    assert forall|g: Seq<char>, n: Seq<char>|
        #![trigger d.graphs[g].nodes.dom().contains(n)]
        has_node(d, (g, n)) && None::<(Seq<char>, Seq<char>)> != Some((g, n)) implies has_node(
        d2,
        (g, n),
    ) && d2.graphs[g].nodes[n] == d.graphs[g].nodes[n] by {
        assert(has_node(d0, (g, n)));
        assert(d0.graphs[g].nodes.dom().contains(n));
    }
}

/// A law of the display: registering a node moves no other node.
pub proof fn lemma_register_moves_no_other_node(d: DisplayView, p: (Seq<char>, Seq<char>))
    requires
        view_inv(d),
    ensures
        nodes_stay(d, update_spec(d, LogView::Register(p)), Some(p)),
{
    lemma_register_nodes_stay(d, p);
}

/// The number of nodes that the graph `g` holds in `d` (none if `d` has no
/// such graph).
pub open spec fn node_count(d: DisplayView, g: Seq<char>) -> nat {
    if d.graphs.dom().contains(g) {
        d.graphs[g].nodes.dom().len()
    } else {
        0
    }
}

/// A law of the display: a node registered for the first time goes in the
/// row given by the number of nodes its graph held before, and its graph
/// then holds one node more.
pub proof fn lemma_new_node_row(d: DisplayView, p: (Seq<char>, Seq<char>))
    requires
        view_inv(d),
        !has_node(d, p),
    ensures
        has_node(update_spec(d, LogView::Register(p)), p),
        update_spec(d, LogView::Register(p)).graphs[p.0].nodes[p.1].row == node_count(d, p.0),
        node_count(update_spec(d, LogView::Register(p)), p.0) == node_count(d, p.0) + 1,
{
    lemma_register(d, p);
    let d1 = register_graph_spec(d, p.0);
    let g = d1.graphs[p.0];
    if d.graphs.dom().contains(p.0) {
        assert(g.nodes.dom().finite());
        assert(!g.nodes.dom().contains(p.1));
    } else {
        assert(g.nodes.dom() =~= Set::<Seq<char>>::empty());
    }
    assert(g.nodes.dom().len() == node_count(d, p.0));
    assert(g.nodes.insert(p.1, NodeView { value: seq![], x: g.x, row: g.nodes.dom().len() }).dom()
        =~= g.nodes.dom().insert(p.1));
}

/// A law of the display: two nodes registered for the first time, one after
/// the other, in the same graph, go in consecutive rows; so nodes that are
/// each registered once stand in distinct rows.
pub proof fn lemma_new_nodes_consecutive_rows(
    d: DisplayView,
    g: Seq<char>,
    n1: Seq<char>,
    n2: Seq<char>,
)
    requires
        view_inv(d),
        n1 != n2,
        !has_node(d, (g, n1)),
        !has_node(d, (g, n2)),
    ensures
        ({
            let d1 = update_spec(d, LogView::Register((g, n1)));
            let d2 = update_spec(d1, LogView::Register((g, n2)));
            &&& has_node(d2, (g, n1))
            &&& has_node(d2, (g, n2))
            &&& d2.graphs[g].nodes[n2].row == d2.graphs[g].nodes[n1].row + 1
        }),
{
    let d1 = update_spec(d, LogView::Register((g, n1)));
    lemma_new_node_row(d, (g, n1));
    lemma_register(d, (g, n1));
    assert(!has_node(d1, (g, n2)));
    lemma_new_node_row(d1, (g, n2));
    lemma_register_nodes_stay(d1, (g, n2));
    assert(d1.graphs[g].nodes.dom().contains(n1));
}

fn find_graph(graphs: &Vec<Graph>, name: &String) -> (r: Option<usize>)
    ensures
        match r {
            Some(i) => i < graphs@.len() && graphs@[i as int].name@ == name@,
            None => forall|i: int| 0 <= i < graphs@.len() ==> graphs@[i].name@ != name@,
        },
{
    let mut i: usize = 0;
    while i < graphs.len()
        invariant
            i <= graphs@.len(),
            forall|j: int| 0 <= j < i ==> graphs@[j].name@ != name@,
        decreases graphs@.len() - i,
    {
        if graphs[i].name == *name {
            return Some(i);
        }
        i = i + 1;
    }
    None
}

fn find_node(nodes: &Vec<Node>, name: &String) -> (r: Option<usize>)
    ensures
        match r {
            Some(i) => i < nodes@.len() && nodes@[i as int].name@ == name@,
            None => forall|i: int| 0 <= i < nodes@.len() ==> nodes@[i].name@ != name@,
        },
{
    let mut i: usize = 0;
    while i < nodes.len()
        invariant
            i <= nodes@.len(),
            forall|j: int| 0 <= j < i ==> nodes@[j].name@ != name@,
        decreases nodes@.len() - i,
    {
        if nodes[i].name == *name {
            return Some(i);
        }
        i = i + 1;
    }
    None
}

fn find_connection(connections: &Vec<(String, Connection)>, name: &String) -> (r: Option<usize>)
    ensures
        match r {
            Some(i) => i < connections@.len() && connections@[i as int].0@ == name@,
            None => forall|i: int| 0 <= i < connections@.len() ==> connections@[i].0@ != name@,
        },
{
    let mut i: usize = 0;
    while i < connections.len()
        invariant
            i <= connections@.len(),
            forall|j: int| 0 <= j < i ==> connections@[j].0@ != name@,
        decreases connections@.len() - i,
    {
        if connections[i].0 == *name {
            return Some(i);
        }
        i = i + 1;
    }
    None
}

proof fn lemma_find_none<T, V>(
    s: Seq<T>,
    key: spec_fn(T) -> Seq<char>,
    val: spec_fn(T) -> V,
    k: Seq<char>,
)
    requires
        forall|i: int| 0 <= i < s.len() ==> key(s[i]) != k,
    ensures
        !keyed(s, key, val).dom().contains(k),
{
    lemma_keyed_dom(s, key, val, k);
}

fn clone_pair(p: &(String, String)) -> (r: (String, String))
    ensures
        r.0@ == p.0@,
        r.1@ == p.1@,
{
    (p.0.clone(), p.1.clone())
}

/// The name of the connection from `s` to `r`: `graph:node graph:node`.
pub fn connection_name_of(s: &(String, String), r: &(String, String)) -> (res: String)
    ensures
        res@ == connection_name((s.0@, s.1@), (r.0@, r.1@)),
{
    let mut res = String::new();
    append_str(&mut res, s.0.as_str());
    push_char(&mut res, ':');
    append_str(&mut res, s.1.as_str());
    push_char(&mut res, ' ');
    append_str(&mut res, r.0.as_str());
    push_char(&mut res, ':');
    append_str(&mut res, r.1.as_str());
    assert(res@ =~= connection_name((s.0@, s.1@), (r.0@, r.1@)));
    res
}

impl Display {
    /// The display is well formed: names are distinct, and its view keeps
    /// the invariant.
    pub closed spec fn wf(&self) -> bool {
        &&& keys_distinct(self.graphs@, graph_key())
        &&& forall|i: int|
            0 <= i < self.graphs@.len() ==> keys_distinct(#[trigger] self.graphs@[i].nodes@, node_key())
        &&& keys_distinct(self.connections@, conn_key())
        &&& view_inv(self@)
    }

    /// A display with no graph and no connection.
    pub fn new() -> (d: Display)
        ensures
            d.wf(),
            view_inv(d@),
            d@.graphs == Map::<Seq<char>, GraphView>::empty(),
            d@.connections == Map::<Seq<char>, ConnectionView>::empty(),
    {
        let d = Display { graphs: Vec::new(), connections: Vec::new() };
        assert(d@.graphs =~= Map::<Seq<char>, GraphView>::empty());
        assert(d@.graphs.dom() =~= Set::empty());
        d
    }

    /// The graphs, each under its own name.
    pub fn graphs(&self) -> (r: &Vec<Graph>)
        ensures
            keyed(r@, graph_key(), graph_val()) == self@.graphs,
    {
        &self.graphs
    }

    /// The connections, each under its own name.
    pub fn connections(&self) -> (r: &Vec<(String, Connection)>)
        ensures
            keyed(r@, conn_key(), conn_val()) == self@.connections,
    {
        &self.connections
    }

    /// Registers the graph `name`: a new graph, empty, in column 0 if it is
    /// the first and in column 50 if not; a registered graph stays as it is.
    pub fn register_graph(&mut self, name: String)
        requires
            old(self).wf(),
        ensures
            final(self).wf(),
            view_inv(final(self)@),
            final(self)@ == register_graph_spec(old(self)@, name@),
    {
        proof {
            lemma_keyed_len(self.graphs@, graph_key(), graph_val());
            lemma_register_graph(self@, name@);
        }
        let x: u64 = if self.graphs.len() == 0 {
            0
        } else {
            50
        };
        let found = find_graph(&self.graphs, &name);
        if let Some(i) = found {
            proof {
                lemma_keyed_index(self.graphs@, graph_key(), graph_val(), i as int);
            }
        } else {
            proof {
                lemma_find_none(self.graphs@, graph_key(), graph_val(), name@);
            }
            let ghost old_graphs = self.graphs@;
            let g = Graph { name, nodes: Vec::new(), x };
            assert(g@.nodes =~= Map::<Seq<char>, NodeView>::empty());
            self.graphs.push(g);
            proof {
                lemma_keyed_push(old_graphs, graph_key(), graph_val(), g);
                assert(self@ =~= register_graph_spec(old(self)@, name@));
            }
        }
    }

    /// Registers the node `pair.1` of the graph `pair.0`: the graph is
    /// registered if it is not, and the node is set, with an empty value, in
    /// the graph's column and in the row given by the number of nodes the
    /// graph holds (the node itself counted, if it was registered before).
    pub fn register(&mut self, pair: (String, String))
        requires
            old(self).wf(),
        ensures
            final(self).wf(),
            view_inv(final(self)@),
            final(self)@ == register_spec(old(self)@, (pair.0@, pair.1@)),
    {
        let (graph_name, node_name) = pair;
        let ghost d0 = self@;
        let ghost p = (graph_name@, node_name@);
        if find_graph(&self.graphs, &graph_name).is_none() {
            self.register_graph(graph_name.clone());
        } else {
            proof {
                let i = choose|i: int| 0 <= i < self.graphs@.len() && self.graphs@[i].name@ == p.0;
                lemma_keyed_index(self.graphs@, graph_key(), graph_val(), i);
            }
        }
        let ghost d1 = self@;
        assert(d1 == register_graph_spec(d0, p.0));
        proof {
            lemma_register_graph(d0, p.0);
            lemma_keyed_dom(self.graphs@, graph_key(), graph_val(), p.0);
        }
        let gi = find_graph(&self.graphs, &graph_name).unwrap();
        proof {
            lemma_keyed_index(self.graphs@, graph_key(), graph_val(), gi as int);
            lemma_keyed_len(self.graphs@[gi as int].nodes@, node_key(), node_val());
        }
        let x = self.graphs[gi].x;
        let row = self.graphs[gi].nodes.len();
        let found = find_node(&self.graphs[gi].nodes, &node_name);
        let node = Node { name: node_name, value: String::new(), x, row };
        let ghost old_graphs = self.graphs@;
        let ghost old_nodes = self.graphs@[gi as int].nodes@;
        let mut g = self.graphs.remove(gi);
        match found {
            Some(j) => {
                g.nodes.remove(j);
                g.nodes.insert(j, node);
                proof {
                    assert(g.nodes@ =~= old_nodes.update(j as int, node));
                    lemma_keyed_update(old_nodes, node_key(), node_val(), j as int, node);
                }
            },
            None => {
                g.nodes.push(node);
                proof {
                    lemma_find_none(old_nodes, node_key(), node_val(), p.1);
                    lemma_keyed_push(old_nodes, node_key(), node_val(), node);
                }
            },
        }
        self.graphs.insert(gi, g);
        proof {
            assert(self.graphs@ =~= old_graphs.update(gi as int, g));
            lemma_keyed_update(old_graphs, graph_key(), graph_val(), gi as int, g);
            assert(node@.value =~= Seq::<char>::empty());
            assert(self@ =~= register_spec(d0, p));
            lemma_register(d0, p);
            assert forall|i: int|
                0 <= i < self.graphs@.len() implies keys_distinct(
                #[trigger] self.graphs@[i].nodes@,
                node_key(),
            ) by {
                if i != gi {
                    assert(self.graphs@[i] == old_graphs[i]);
                }
            }
        }
    }

    /// Makes sure that the node `pair.1` of the graph `pair.0` is
    /// registered: registers it if it is not, and changes nothing if it is.
    pub fn check(&mut self, pair: (String, String))
        requires
            old(self).wf(),
        ensures
            final(self).wf(),
            view_inv(final(self)@),
            final(self)@ == check_spec(old(self)@, (pair.0@, pair.1@)),
    {
        let ghost p = (pair.0@, pair.1@);
        let present = match find_graph(&self.graphs, &pair.0) {
            Some(i) => {
                proof {
                    lemma_keyed_index(self.graphs@, graph_key(), graph_val(), i as int);
                }
                match find_node(&self.graphs[i].nodes, &pair.1) {
                    Some(j) => {
                        proof {
                            lemma_keyed_index(self.graphs@[i as int].nodes@, node_key(), node_val(), j as int);
                        }
                        true
                    },
                    None => {
                        proof {
                            lemma_find_none(self.graphs@[i as int].nodes@, node_key(), node_val(), p.1);
                        }
                        false
                    },
                }
            },
            None => {
                proof {
                    lemma_find_none(self.graphs@, graph_key(), graph_val(), p.0);
                }
                false
            },
        };
        if !present {
            self.register(pair);
        }
    }

    /// Takes in a log entry. A message makes sure that both its nodes are
    /// registered, and adds its connection, placed where the two nodes stand,
    /// unless a connection of that name is kept already; a name registers its
    /// node.
    pub fn update(&mut self, log: Log)
        requires
            old(self).wf(),
        ensures
            final(self).wf(),
            view_inv(final(self)@),
            final(self)@ == update_spec(old(self)@, log@),
    {
        let ghost d0 = self@;
        let ghost lv = log@;
        match log {
            Log::Send(sender, receiver, args, received) => {
                let ghost s = (sender.0@, sender.1@);
                let ghost r = (receiver.0@, receiver.1@);
                self.check(clone_pair(&sender));
                self.check(clone_pair(&receiver));
                proof {
                    lemma_check(d0, s);
                    lemma_check(check_spec(d0, s), r);
                    assert(has_node(check_spec(d0, s), s));
                }
                let ghost d1 = self@;
                let name = connection_name_of(&sender, &receiver);
                let status = if received {
                    MessageStatus::Received
                } else {
                    MessageStatus::Sending
                };
                match find_connection(&self.connections, &name) {
                    Some(ci) => {
                        proof {
                            lemma_keyed_index(self.connections@, conn_key(), conn_val(), ci as int);
                        }
                    },
                    None => {
                        proof {
                            lemma_find_none(self.connections@, conn_key(), conn_val(), name@);
                            lemma_keyed_dom(self.graphs@, graph_key(), graph_val(), s.0);
                            lemma_keyed_dom(self.graphs@, graph_key(), graph_val(), r.0);
                        }
                        let si = find_graph(&self.graphs, &sender.0).unwrap();
                        proof {
                            lemma_keyed_index(self.graphs@, graph_key(), graph_val(), si as int);
                            lemma_keyed_dom(self.graphs@[si as int].nodes@, node_key(), node_val(), s.1);
                        }
                        let sj = find_node(&self.graphs[si].nodes, &sender.1).unwrap();
                        proof {
                            lemma_keyed_index(self.graphs@[si as int].nodes@, node_key(), node_val(), sj as int);
                        }
                        let from_x = self.graphs[si].nodes[sj].x;
                        let from_row = self.graphs[si].nodes[sj].row;
                        let ri = find_graph(&self.graphs, &receiver.0).unwrap();
                        proof {
                            lemma_keyed_index(self.graphs@, graph_key(), graph_val(), ri as int);
                            lemma_keyed_dom(self.graphs@[ri as int].nodes@, node_key(), node_val(), r.1);
                        }
                        let rj = find_node(&self.graphs[ri].nodes, &receiver.1).unwrap();
                        proof {
                            lemma_keyed_index(self.graphs@[ri as int].nodes@, node_key(), node_val(), rj as int);
                        }
                        let to_x = self.graphs[ri].nodes[rj].x;
                        let to_row = self.graphs[ri].nodes[rj].row;
                        let text = join_parts(&args, 0, args.len(), ' ');
                        assert(strings_view(args@).subrange(0, args@.len() as int) =~= strings_view(args@));
                        let connection = Connection {
                            from: sender,
                            to: receiver,
                            args,
                            text,
                            status,
                            from_x,
                            from_row,
                            to_x,
                            to_row,
                        };
                        let ghost old_connections = self.connections@;
                        let entry = (name, connection);
                        self.connections.push(entry);
                        proof {
                            lemma_keyed_push(old_connections, conn_key(), conn_val(), entry);
                            assert(connection@ == new_connection(d1, s, r, strings_view(args@), received));
                            assert(self@ =~= update_spec(d0, lv));
                        }
                    },
                }
            },
            Log::Register(name) => {
                self.register(name);
            },
        }
        proof {
            lemma_update_keeps(d0, lv);
        }
    }
}

} // verus!
