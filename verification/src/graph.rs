//! The topology snapshot that the analysis runs on: nodes with the addresses they
//! announce, and the channels that leave each node.

use vstd::prelude::*;

verus! {

broadcast use vstd::string::group_string_axioms;

/// The identifiers in `v`, each as the sequence of its characters.
pub open spec fn ids(v: Seq<String>) -> Seq<Seq<char>> {
    v.map_values(|s: String| s@)
}

/// The text that marks an address of the anonymity network.
pub open spec fn onion_marker() -> Seq<char> {
    seq!['o', 'n', 'i', 'o', 'n']
}

/// Whether `text` holds the marker of the anonymity network somewhere.
pub open spec fn mentions_onion(text: Seq<char>) -> bool {
    exists|i: int|
        0 <= i && i + 5 <= text.len() && #[trigger] text.subrange(i, i + 5) == onion_marker()
}

/// One address that a node announces.
#[derive(Debug, PartialEq)]
pub struct Address {
    /// Protocol tag, such as `tcp`.
    pub network: String,
    /// The address as the node announces it.
    pub addr: String,
    /// The AS that the address database gives for `addr`; `None` where the database was
    /// not asked, `addr` is no IP address or the database does not know it.
    pub asn: Option<u32>,
}

/// A participant of the network.
#[derive(Debug, PartialEq)]
pub struct Node {
    pub id: String,
    /// The node's addresses, in the order in which it announces them.
    pub addresses: Vec<Address>,
}

/// A channel, seen from the node it leaves.
#[derive(Debug, PartialEq)]
pub struct Edge {
    pub source: String,
    pub destination: String,
}

/// The channels that leave one node.
#[derive(Debug, PartialEq)]
pub struct Adjacency {
    pub node: String,
    pub edges: Vec<Edge>,
}

/// A snapshot of the network.
#[derive(Debug, PartialEq)]
pub struct Graph {
    pub nodes: Vec<Node>,
    pub edges: Vec<Adjacency>,
}

/// An address as contracts speak of it.
pub struct AddressView {
    pub network: Seq<char>,
    pub addr: Seq<char>,
    pub asn: Option<u32>,
}

/// A node as contracts speak of it.
pub struct NodeView {
    pub id: Seq<char>,
    pub addresses: Seq<AddressView>,
}

/// A channel as contracts speak of it.
pub struct EdgeView {
    pub source: Seq<char>,
    pub destination: Seq<char>,
}

/// The channels of one node as contracts speak of them.
pub struct AdjacencyView {
    pub node: Seq<char>,
    pub edges: Seq<EdgeView>,
}

/// A graph as contracts speak of it.
pub struct GraphView {
    pub nodes: Seq<NodeView>,
    pub edges: Seq<AdjacencyView>,
}

impl View for Address {
    type V = AddressView;

    open spec fn view(&self) -> AddressView {
        AddressView { network: self.network@, addr: self.addr@, asn: self.asn }
    }
}

impl View for Node {
    type V = NodeView;

    open spec fn view(&self) -> NodeView {
        NodeView { id: self.id@, addresses: self.addresses@.map_values(|a: Address| a@) }
    }
}

impl View for Edge {
    type V = EdgeView;

    open spec fn view(&self) -> EdgeView {
        EdgeView { source: self.source@, destination: self.destination@ }
    }
}

/// The channels in `edges`, each by its view.
pub open spec fn edges_view(edges: Seq<Edge>) -> Seq<EdgeView> {
    edges.map_values(|e: Edge| e@)
}

impl View for Adjacency {
    type V = AdjacencyView;

    open spec fn view(&self) -> AdjacencyView {
        AdjacencyView { node: self.node@, edges: edges_view(self.edges@) }
    }
}

impl View for Graph {
    type V = GraphView;

    open spec fn view(&self) -> GraphView {
        GraphView {
            nodes: self.nodes@.map_values(|n: Node| n@),
            edges: self.edges@.map_values(|a: Adjacency| a@),
        }
    }
}

impl AddressView {
    /// Whether the address belongs to the anonymity network.
    pub open spec fn is_onion(self) -> bool {
        mentions_onion(self.addr)
    }
}

impl GraphView {
    /// The identifiers of the nodes, in the graph's order.
    pub open spec fn node_ids(self) -> Seq<Seq<char>> {
        self.nodes.map_values(|n: NodeView| n.id)
    }

    /// No two nodes share an identifier.
    pub open spec fn wf(self) -> bool {
        self.node_ids().no_duplicates()
    }

    /// Whether `at` is the position of the first entry of the channel table kept for `id`.
    pub open spec fn is_first_entry(self, id: Seq<char>, at: int) -> bool {
        &&& 0 <= at < self.edges.len()
        &&& self.edges[at].node == id
        &&& forall|j: int| 0 <= j < at ==> (#[trigger] self.edges[j]).node != id
    }

    /// The channels that leave the node `id`: those of the first entry kept for it, `None`
    /// where the graph keeps no entry for `id`.
    pub open spec fn edges_of(self, id: Seq<char>) -> Option<Seq<EdgeView>> {
        if exists|at: int| self.is_first_entry(id, at) {
            Some(self.edges[choose|at: int| self.is_first_entry(id, at)].edges)
        } else {
            None
        }
    }

    /// The number of channels that leave the node `id`; 0 where the graph keeps none.
    pub open spec fn degree(self, id: Seq<char>) -> nat {
        match self.edges_of(id) {
            Some(edges) => edges.len(),
            None => 0,
        }
    }
}

impl Address {
    pub fn new(network: String, addr: String, asn: Option<u32>) -> (address: Address)
        ensures
            address@ == (AddressView { network: network@, addr: addr@, asn }),
    {
        Address { network, addr, asn }
    }

    /// Tells whether the address belongs to the anonymity network.
    pub fn is_onion(&self) -> (onion: bool)
        ensures
            onion == self@.is_onion(),
    {
        let text = chars_of(self.addr.as_str());
        holds_onion_marker(&text)
    }
}

impl Clone for Address {
    fn clone(&self) -> (copy: Address)
        ensures
            copy@ == self@,
    {
        Address { network: self.network.clone(), addr: self.addr.clone(), asn: self.asn }
    }
}

/// The characters of `text`, in order.
pub fn chars_of(text: &str) -> (chars: Vec<char>)
    ensures
        chars@ == text@,
{
    let mut chars: Vec<char> = Vec::new();
    for c in it: text.chars()
        invariant
            it.seq() == text@,
            chars@ == it.seq().take(it.index()),
    {
        chars.push(c);
    }
    chars
}

/// Tells whether the marker of the anonymity network occurs in `text`.
pub fn holds_onion_marker(text: &Vec<char>) -> (found: bool)
    ensures
        found == mentions_onion(text@),
{
    if text.len() < 5 {
        return false;
    }
    let last: usize = text.len() - 5;
    let mut i: usize = 0;
    while i <= last
        invariant
            last + 5 == text.len(),
            i <= last + 1,
            forall|j: int| 0 <= j < i ==> #[trigger] text@.subrange(j, j + 5) != onion_marker(),
        decreases last + 1 - i,
    {
        if text[i] == 'o' && text[i + 1] == 'n' && text[i + 2] == 'i' && text[i + 3] == 'o'
            && text[i + 4] == 'n' {
            assert(text@.subrange(i as int, i + 5) =~= onion_marker());
            return true;
        }
        assert(text@.subrange(i as int, i + 5) != onion_marker()) by {
            let part = text@.subrange(i as int, i + 5);
            assert(part[0] == text@[i as int]);
            assert(part[1] == text@[i + 1]);
            assert(part[2] == text@[i + 2]);
            assert(part[3] == text@[i + 3]);
            assert(part[4] == text@[i + 4]);
        }
        i += 1;
    }
    false
}

impl Node {
    pub fn new(id: String, addresses: Vec<Address>) -> (node: Node)
        ensures
            node@ == (NodeView { id: id@, addresses: addresses@.map_values(|a: Address| a@) }),
    {
        Node { id, addresses }
    }
}

impl Default for Node {
    /// A node without a name and without addresses.
    fn default() -> (node: Node)
        ensures
            node@ == (NodeView { id: Seq::empty(), addresses: Seq::empty() }),
    {
        let node = Node { id: String::new(), addresses: Vec::new() };
        assert(node@.addresses =~= Seq::empty());
        node
    }
}

impl Clone for Node {
    fn clone(&self) -> (copy: Node)
        ensures
            copy@ == self@,
    {
        let addresses = self.addresses.clone();
        assert(addresses@.map_values(|a: Address| a@) =~= self.addresses@.map_values(
            |a: Address| a@,
        ));
        Node { id: self.id.clone(), addresses }
    }
}

impl Edge {
    pub fn new(source: String, destination: String) -> (edge: Edge)
        ensures
            edge@ == (EdgeView { source: source@, destination: destination@ }),
    {
        Edge { source, destination }
    }
}

impl Clone for Edge {
    fn clone(&self) -> (copy: Edge)
        ensures
            copy@ == self@,
    {
        Edge { source: self.source.clone(), destination: self.destination.clone() }
    }
}

impl Adjacency {
    pub fn new(node: String, edges: Vec<Edge>) -> (adjacency: Adjacency)
        ensures
            adjacency@ == (AdjacencyView { node: node@, edges: edges_view(edges@) }),
    {
        Adjacency { node, edges }
    }
}

impl Clone for Adjacency {
    fn clone(&self) -> (copy: Adjacency)
        ensures
            copy@ == self@,
    {
        let edges = self.edges.clone();
        assert(edges_view(edges@) =~= edges_view(self.edges@));
        Adjacency { node: self.node.clone(), edges }
    }
}

impl Graph {
    /// No two nodes share an identifier.
    pub open spec fn wf(&self) -> bool {
        self@.wf()
    }

    /// A graph of the given nodes and channels.
    pub fn new(nodes: Vec<Node>, edges: Vec<Adjacency>) -> (graph: Graph)
        ensures
            graph.nodes == nodes,
            graph.edges == edges,
    {
        Graph { nodes, edges }
    }

    pub fn node_count(&self) -> (count: usize)
        ensures
            count == self@.nodes.len(),
    {
        self.nodes.len()
    }

    /// The nodes of the graph.
    pub fn get_nodes(&self) -> (nodes: &Vec<Node>)
        ensures
            nodes == self.nodes,
    {
        &self.nodes
    }

    /// The channels that leave the node `id`, where the graph keeps any for it.
    pub fn get_edges_for_node(&self, id: &String) -> (edges: Option<&Vec<Edge>>)
        ensures
            match edges {
                Some(found) => self@.edges_of(id@) == Some(edges_view(found@)),
                None => self@.edges_of(id@) is None,
            },
    {
        let mut i: usize = 0;
        while i < self.edges.len()
            invariant
                i <= self.edges@.len(),
                forall|j: int| 0 <= j < i ==> (#[trigger] self@.edges[j]).node != id@,
            decreases self.edges@.len() - i,
        {
            if self.edges[i].node == *id {
                assert(self@.edges[i as int] == self.edges@[i as int]@);
                assert(self@.is_first_entry(id@, i as int));
                assert forall|at: int| self@.is_first_entry(id@, at) implies at == i by {
                    if at < i {
                        assert(self@.edges[at].node != id@);
                    } else if i < at {
                        assert(self@.edges[i as int].node != id@);
                    }
                }
                return Some(&self.edges[i].edges);
            }
            assert(self@.edges[i as int] == self.edges@[i as int]@);
            i += 1;
        }
        assert forall|at: int| !self@.is_first_entry(id@, at) by {
            if 0 <= at < self@.edges.len() {
                assert(self@.edges[at].node != id@);
            }
        }
        None
    }

    /// The number of channels that leave the node `id`.
    pub fn edge_count(&self, id: &String) -> (count: usize)
        ensures
            count == self@.degree(id@),
    {
        match self.get_edges_for_node(id) {
            Some(edges) => edges.len(),
            None => 0,
        }
    }

    /// Tells whether no two nodes share an identifier.
    pub fn has_distinct_nodes(&self) -> (distinct: bool)
        ensures
            distinct == self.wf(),
    {
        let mut i: usize = 0;
        while i < self.nodes.len()
            invariant
                i <= self.nodes@.len(),
                forall|a: int, b: int|
                    0 <= a < b < i ==> #[trigger] self@.node_ids()[a] != #[trigger] self@.node_ids()[b],
            decreases self.nodes@.len() - i,
        {
            let mut j: usize = 0;
            while j < i
                invariant
                    j <= i < self.nodes@.len(),
                    forall|a: int|
                        0 <= a < j ==> #[trigger] self@.node_ids()[a] != self@.node_ids()[i as int],
                decreases i - j,
            {
                if self.nodes[j].id == self.nodes[i].id {
                    assert(self@.node_ids()[j as int] == self@.node_ids()[i as int]);
                    return false;
                }
                j += 1;
            }
            i += 1;
        }
        true
    }
}

impl Clone for Graph {
    fn clone(&self) -> (copy: Graph)
        ensures
            copy@ == self@,
    {
        let nodes = self.nodes.clone();
        let edges = self.edges.clone();
        assert(nodes@.map_values(|n: Node| n@) =~= self.nodes@.map_values(|n: Node| n@));
        assert(edges@.map_values(|a: Adjacency| a@) =~= self.edges@.map_values(
            |a: Adjacency| a@,
        ));
        Graph { nodes, edges }
    }
}

} // verus!
