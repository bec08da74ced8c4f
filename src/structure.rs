//! The graph of locations: nodes and edges that carry sensors, and the sets
//! of nodes where movable objects appear, leave and stay.
use vstd::prelude::*;
use crate::sensor::Sensor;

verus! {

/// What a node stands for, such as a room of a building.
pub trait NodeData {
    fn get_id(&self) -> String;
}

/// What an edge stands for, such as a door between two rooms.
pub trait EdgeData {
    fn get_id(&self) -> String;
}

/// Copies a list of sensors.
pub fn copy_sensors(s: &Vec<Sensor>) -> (r: Vec<Sensor>)
    ensures
        r@.len() == s@.len(),
        forall|i: int|
            0 <= i < r@.len() ==> (#[trigger] r@[i]).id@ == s@[i].id@ && r@[i].no == s@[i].no
                && r@[i].sensor_type.id@ == s@[i].sensor_type.id@
                && r@[i].sensor_type.device_profile_id@ == s@[i].sensor_type.device_profile_id@
                && r@[i].sensor_type.uplink_interval_in_sec == s@[i].sensor_type.uplink_interval_in_sec,
{
    let mut r: Vec<Sensor> = Vec::new();
    let mut i: usize = 0;
    while i < s.len()
        invariant
            i <= s@.len(),
            r@.len() == i,
            forall|k: int|
                0 <= k < i ==> (#[trigger] r@[k]).id@ == s@[k].id@ && r@[k].no == s@[k].no
                    && r@[k].sensor_type.id@ == s@[k].sensor_type.id@
                    && r@[k].sensor_type.device_profile_id@ == s@[k].sensor_type.device_profile_id@
                    && r@[k].sensor_type.uplink_interval_in_sec
                    == s@[k].sensor_type.uplink_interval_in_sec,
        decreases s@.len() - i,
    {
        r.push(s[i].duplicate());
        i = i + 1;
    }
    r
}

/// An edge of the graph, with the sensors placed on it.
pub struct Edge<T> {
    pub data: T,
    pub sensors: Vec<Sensor>,
}

impl<T> Edge<T> {
    pub fn new(data: T) -> (r: Edge<T>)
        ensures
            r.data == data,
            r.sensors@.len() == 0,
    {
        Edge { data, sensors: Vec::new() }
    }

    pub fn get_data(&self) -> (r: &T)
        ensures
            *r == self.data,
    {
        &self.data
    }

    pub fn add_sensor(&mut self, sensor: Sensor)
        ensures
            final(self).sensors@ == old(self).sensors@.push(sensor),
            final(self).data == old(self).data,
    {
        self.sensors.push(sensor);
    }

    /// A copy of the sensors.
    pub fn get_sensors(&self) -> (r: Vec<Sensor>)
        ensures
            r@.len() == self.sensors@.len(),
            forall|i: int|
                0 <= i < r@.len() ==> (#[trigger] r@[i]).id@ == self.sensors@[i].id@ && r@[i].no
                    == self.sensors@[i].no,
    {
        copy_sensors(&self.sensors)
    }
}

/// A node of the graph, with the sensors placed on it.
pub struct Node<T> {
    pub data: T,
    pub sensors: Vec<Sensor>,
}

impl<T> Node<T> {
    pub fn new(data: T) -> (r: Node<T>)
        ensures
            r.data == data,
            r.sensors@.len() == 0,
    {
        Node { data, sensors: Vec::new() }
    }

    pub fn get_data(&self) -> (r: &T)
        ensures
            *r == self.data,
    {
        &self.data
    }

    pub fn add_sensor(&mut self, sensor: Sensor)
        ensures
            final(self).sensors@ == old(self).sensors@.push(sensor),
            final(self).data == old(self).data,
    {
        self.sensors.push(sensor);
    }

    /// Adds the sensors in order.
    pub fn add_sensors(&mut self, sensors: Vec<Sensor>)
        ensures
            final(self).sensors@ == old(self).sensors@ + sensors@,
            final(self).data == old(self).data,
    {
        let mut rest = sensors;
        let ghost start = self.sensors@;
        let ghost given = rest@;
        while rest.len() > 0
            invariant
                self.sensors@ + rest@ == start + given,
                self.data == old(self).data,
            decreases rest@.len(),
        {
            let ghost before = rest@;
            let s = rest.remove(0);
            self.add_sensor(s);
            assert(self.sensors@ + rest@ =~= start + given) by {
                assert(before =~= seq![s] + rest@);
            }
        }
        assert(self.sensors@ =~= start + given);
    }

    /// A copy of the sensors.
    pub fn get_sensors(&self) -> (r: Vec<Sensor>)
        ensures
            r@.len() == self.sensors@.len(),
            forall|i: int|
                0 <= i < r@.len() ==> (#[trigger] r@[i]).id@ == self.sensors@[i].id@ && r@[i].no
                    == self.sensors@[i].no,
    {
        copy_sensors(&self.sensors)
    }
}

/// The graph on which a simulation runs: its nodes, its undirected edges
/// (two node indices and what the edge carries), and the nodes where movable
/// objects appear, leave, and may go.
pub struct UnderlyingStructure<N, E> {
    pub nodes: Vec<Node<N>>,
    pub edges: Vec<(usize, usize, Edge<E>)>,
    pub start_nodes: Vec<usize>,
    pub end_nodes: Vec<usize>,
    pub nodes_to_move_to: Vec<usize>,
}

/// `a` and `b` are joined by one of the edges, in either direction.
pub open spec fn adjacent(edges: Seq<(usize, usize)>, a: usize, b: usize) -> bool {
    exists|k: int| 0 <= k < edges.len() && (#[trigger] edges[k] == (a, b) || edges[k] == (b, a))
}

/// A walk from `from` to `to` over the edges, through nodes below `n`.
pub open spec fn is_walk(p: Seq<usize>, n: nat, edges: Seq<(usize, usize)>, from: usize, to: usize) -> bool {
    &&& p.len() >= 2
    &&& p[0] == from
    &&& p.last() == to
    &&& forall|j: int| 0 <= j < p.len() ==> (#[trigger] p[j]) < n
    &&& forall|j: int| 0 <= j < p.len() - 1 ==> adjacent(edges, #[trigger] p[j], p[j + 1])
}

/// A route from `from` to `to`: a walk, or the single node where both are
/// the same.
pub open spec fn is_route(p: Seq<usize>, n: nat, edges: Seq<(usize, usize)>, from: usize, to: usize) -> bool {
    (p == seq![from] && from == to && from < n) || is_walk(p, n, edges, from, to)
}

/// `a` and `b` are the same node or joined by a walk.
pub open spec fn joined(n: nat, edges: Seq<(usize, usize)>, a: usize, b: usize) -> bool {
    a == b || exists|p: Seq<usize>| is_walk(p, n, edges, a, b)
}

/// Every index in `s` names one of `n` nodes.
pub open spec fn indices_below(s: Seq<usize>, n: nat) -> bool {
    forall|i: int| 0 <= i < s.len() ==> (#[trigger] s[i]) < n
}

impl<N, E> UnderlyingStructure<N, E> {
    pub fn new(nodes: Vec<Node<N>>) -> (r: UnderlyingStructure<N, E>)
        ensures
            r.nodes@ == nodes@,
            r.edges@.len() == 0,
            r.start_nodes@.len() == 0,
            r.end_nodes@.len() == 0,
            r.nodes_to_move_to@.len() == 0,
    {
        UnderlyingStructure {
            nodes,
            edges: Vec::new(),
            start_nodes: Vec::new(),
            end_nodes: Vec::new(),
            nodes_to_move_to: Vec::new(),
        }
    }

    /// Node and edge indices are in range, and the node count fits a graph
    /// index.
    pub open spec fn wf(&self) -> bool {
        &&& self.nodes@.len() < u32::MAX
        &&& self.edges@.len() < u32::MAX
        &&& forall|i: int|
            0 <= i < self.edges@.len() ==> (#[trigger] self.edges@[i]).0 < self.nodes@.len()
                && self.edges@[i].1 < self.nodes@.len()
        &&& indices_below(self.start_nodes@, self.nodes@.len())
        &&& indices_below(self.end_nodes@, self.nodes@.len())
        &&& indices_below(self.nodes_to_move_to@, self.nodes@.len())
    }

    /// Whether the indices are in range (see `wf`).
    pub fn check(&self) -> (r: bool)
        ensures
            r == self.wf(),
    {
        let n = self.nodes.len();
        if n >= 0xFFFF_FFFF || self.edges.len() >= 0xFFFF_FFFF {
            return false;
        }
        let mut i: usize = 0;
        while i < self.edges.len()
            invariant
                n == self.nodes@.len(),
                i <= self.edges@.len(),
                forall|k: int|
                    0 <= k < i ==> (#[trigger] self.edges@[k]).0 < n && self.edges@[k].1 < n,
            decreases self.edges@.len() - i,
        {
            if self.edges[i].0 >= n || self.edges[i].1 >= n {
                return false;
            }
            i = i + 1;
        }
        all_below(&self.start_nodes, n) && all_below(&self.end_nodes, n) && all_below(
            &self.nodes_to_move_to,
            n,
        )
    }

    /// The edges as pairs of node indices.
    pub open spec fn edge_list(&self) -> Seq<(usize, usize)> {
        self.edges@.map_values(|e: (usize, usize, Edge<E>)| (e.0, e.1))
    }

    /// Every start node is joined to every visitable node, every visitable
    /// node to every other and to every end node.
    pub open spec fn movement_connected(&self) -> bool {
        let n = self.nodes@.len();
        let es = self.edge_list();
        &&& forall|i: int, j: int|
            0 <= i < self.start_nodes@.len() && 0 <= j < self.nodes_to_move_to@.len() ==> joined(
                n,
                es,
                #[trigger] self.start_nodes@[i],
                #[trigger] self.nodes_to_move_to@[j],
            )
        &&& forall|i: int, j: int|
            0 <= i < self.nodes_to_move_to@.len() && 0 <= j < self.nodes_to_move_to@.len() ==> joined(
                n,
                es,
                #[trigger] self.nodes_to_move_to@[i],
                #[trigger] self.nodes_to_move_to@[j],
            )
        &&& forall|i: int, j: int|
            0 <= i < self.nodes_to_move_to@.len() && 0 <= j < self.end_nodes@.len() ==> joined(
                n,
                es,
                #[trigger] self.nodes_to_move_to@[i],
                #[trigger] self.end_nodes@[j],
            )
    }

    /// The edges as pairs of node indices.
    pub fn edge_pairs(&self) -> (r: Vec<(usize, usize)>)
        ensures
            r@ == self.edge_list(),
    {
        let mut r: Vec<(usize, usize)> = Vec::new();
        let mut i: usize = 0;
        while i < self.edges.len()
            invariant
                i <= self.edges@.len(),
                r@ == self.edge_list().subrange(0, i as int),
            decreases self.edges@.len() - i,
        {
            r.push((self.edges[i].0, self.edges[i].1));
            i = i + 1;
            assert(r@ =~= self.edge_list().subrange(0, i as int));
        }
        assert(self.edge_list().subrange(0, i as int) =~= self.edge_list());
        r
    }

    pub fn get_start_nodes(&self) -> (r: &Vec<usize>)
        ensures
            r@ == self.start_nodes@,
    {
        &self.start_nodes
    }

    pub fn get_end_nodes(&self) -> (r: &Vec<usize>)
        ensures
            r@ == self.end_nodes@,
    {
        &self.end_nodes
    }

    pub fn get_nodes_to_move_to(&self) -> (r: &Vec<usize>)
        ensures
            r@ == self.nodes_to_move_to@,
    {
        &self.nodes_to_move_to
    }
}

fn all_below(s: &Vec<usize>, n: usize) -> (r: bool)
    ensures
        r == indices_below(s@, n as nat),
{
    let mut i: usize = 0;
    while i < s.len()
        invariant
            i <= s@.len(),
            forall|k: int| 0 <= k < i ==> (#[trigger] s@[k]) < n,
        decreases s@.len() - i,
    {
        if s[i] >= n {
            return false;
        }
        i = i + 1;
    }
    true
}

} // verus!
