use vstd::prelude::*;

verus! {

/// The id of a node within a graph. Node `0` is the root.
#[derive(Debug, Clone, Copy, PartialEq, Eq, Hash)]
pub struct NodeId(pub u16);

/// The id of a clip within a graph, which indexes the graph's per-clip state.
#[derive(Debug, Clone, Copy, PartialEq, Eq, Hash, PartialOrd, Ord)]
pub struct ClipId(pub u16);

/// The most nodes a graph can hold: ids are `u16`.
pub const MAX_NODES: usize = 65536;

/// The most clips a graph can hold.
pub const MAX_CLIPS: u16 = 65535;

/// A blend weight, held as the IEEE-754 binary32 encoding of the number.
/// The graph only carries weights and tells zero from non-zero; the
/// arithmetic on them happens where the numbers are read.
#[derive(Debug, Clone, Copy, PartialEq, Eq)]
pub struct Weight(pub u32);

/// The encoding of `1.0`.
pub const WEIGHT_ONE_BITS: u32 = 0x3f80_0000;

/// Whether a weight is `+0.0` or `-0.0`: all bits but the sign are clear.
pub open spec fn is_zero_weight(w: Weight) -> bool {
    w.0 & 0x7fff_ffffu32 == 0
}

impl Weight {
    /// The weight `1.0`.
    pub fn one() -> (r: Weight)
        ensures
            r.0 == WEIGHT_ONE_BITS,
    {
        Weight(WEIGHT_ONE_BITS)
    }

    /// Whether this weight is zero.
    pub fn is_zero(&self) -> (r: bool)
        ensures
            r == is_zero_weight(*self),
    {
        self.0 & 0x7fff_ffffu32 == 0
    }
}

/// A weighted edge from a blend node to one of its inputs.
#[derive(Debug, Clone, Copy, PartialEq, Eq)]
pub struct NodeInput {
    pub node_id: NodeId,
    pub connected: bool,
    pub weight: Weight,
}

/// Whether the traversal of a graph follows an edge: it is connected and its
/// weight is not zero.
pub open spec fn is_active(i: NodeInput) -> bool {
    i.connected && !is_zero_weight(i.weight)
}

impl NodeInput {
    /// A connected edge of weight `1.0` to `node_id`.
    pub fn new(node_id: NodeId) -> (r: Self)
        ensures
            r.node_id == node_id,
            r.connected,
            r.weight.0 == WEIGHT_ONE_BITS,
    {
        NodeInput { node_id, connected: true, weight: Weight::one() }
    }

    /// The node at the input end of the edge.
    pub fn node_id(&self) -> (r: NodeId)
        ensures
            r == self.node_id,
    {
        self.node_id
    }

    /// Whether the edge is connected.
    pub fn is_connected(&self) -> (r: bool)
        ensures
            r == self.connected,
    {
        self.connected
    }

    /// Disconnects the edge; it keeps its weight.
    pub fn disconnect(&mut self)
        ensures
            *final(self) == (NodeInput { connected: false, ..*old(self) }),
    {
        self.connected = false;
    }

    /// Connects the edge again.
    pub fn reconnect(&mut self)
        ensures
            *final(self) == (NodeInput { connected: true, ..*old(self) }),
    {
        self.connected = true;
    }

    /// The weight of the edge.
    pub fn weight(&self) -> (r: Weight)
        ensures
            r == self.weight,
    {
        self.weight
    }

    /// Sets the weight of the edge.
    pub fn set_weight(&mut self, weight: Weight)
        ensures
            *final(self) == (NodeInput { weight, ..*old(self) }),
    {
        self.weight = weight;
    }
}

/// A node of a graph: a blend of weighted inputs, or a leaf that plays one clip.
#[derive(Debug)]
pub enum Node {
    Blend {
        inputs: Vec<NodeInput>,
        /// Whether a time set on this node is passed on to its inputs.
        propagate_time: bool,
    },
    Clip { clip: ClipId },
}

/// Why a change to a graph was refused. The graph is left as it was.
#[derive(Debug, Clone, Copy, PartialEq, Eq)]
pub enum AnimationGraphError {
    /// No node has this id.
    NodeNotFound(NodeId),
    /// The target already has an edge from this input.
    InputAlreadyExists(NodeId),
    /// This node is a clip leaf, which has no inputs.
    NotBlendNode(NodeId),
}

/// One edge followed by the traversal: the node it leads to and its weight.
#[derive(Debug, Clone, Copy, PartialEq, Eq)]
pub struct Step {
    pub node: NodeId,
    pub weight: Weight,
}

/// A clip reached by the traversal, with the edges followed from the root to it.
/// The clip's influence along this path is the product of the edges' weights.
#[derive(Debug)]
pub struct Influence {
    pub clip: ClipId,
    pub path: Vec<Step>,
}

impl View for Influence {
    type V = (ClipId, Seq<Step>);

    open spec fn view(&self) -> (ClipId, Seq<Step>) {
        (self.clip, self.path@)
    }
}

pub open spec fn influence_views(s: Seq<Influence>) -> Seq<(ClipId, Seq<Step>)> {
    s.map_values(|i: Influence| i@)
}

/// The clips reached from node `id` through active edges, each with the path
/// taken (after `prefix`), in the order of the inputs. A blend node passes
/// the traversal on only while `fuel` lasts, one unit per edge.
pub open spec fn influences_from(nodes: Seq<Node>, id: int, fuel: nat, prefix: Seq<Step>) -> Seq<
    (ClipId, Seq<Step>),
>
    decreases fuel, 0nat,
{
    if 0 <= id < nodes.len() {
        match nodes[id] {
            Node::Clip { clip } => seq![(clip, prefix)],
            Node::Blend { inputs, .. } => if fuel == 0 {
                Seq::empty()
            } else {
                inputs_influences(nodes, inputs@, (fuel - 1) as nat, prefix)
            },
        }
    } else {
        Seq::empty()
    }
}

/// The clips reached through the active edges among `ins`, in order.
pub open spec fn inputs_influences(
    nodes: Seq<Node>,
    ins: Seq<NodeInput>,
    fuel: nat,
    prefix: Seq<Step>,
) -> Seq<(ClipId, Seq<Step>)>
    decreases fuel, ins.len() + 1,
{
    if ins.len() == 0 {
        Seq::empty()
    } else {
        let rest = inputs_influences(nodes, ins.drop_last(), fuel, prefix);
        let i = ins.last();
        if is_active(i) {
            rest + influences_from(
                nodes,
                i.node_id.0 as int,
                fuel,
                prefix.push(Step { node: i.node_id, weight: i.weight }),
            )
        } else {
            rest
        }
    }
}

/// The inputs of a blend node; a clip leaf has none.
pub open spec fn blend_inputs(n: Node) -> Seq<NodeInput> {
    match n {
        Node::Blend { inputs, .. } => inputs@,
        Node::Clip { .. } => Seq::empty(),
    }
}

/// Whether a node passes a time on to its inputs; a clip leaf does not.
pub open spec fn propagates_time(n: Node) -> bool {
    match n {
        Node::Blend { propagate_time, .. } => propagate_time,
        Node::Clip { .. } => false,
    }
}

/// A graph of blend nodes over clip leaves. Node ids are indices into an
/// arena that only grows, so an id stays valid for the graph's lifetime.
///
/// Cycles are not refused when an edge is added. Setting a time visits each
/// node at most once, so a cycle cannot make it loop. Evaluation follows
/// every path and bounds its depth instead: a path follows at most as many
/// edges as the graph has nodes. In a graph without cycles no path is that
/// long, so nothing is lost there, and in a graph with a cycle evaluation
/// still ends.
#[derive(Debug)]
pub struct AnimationGraph {
    nodes: Vec<Node>,
    clip_count: u16,
}

impl AnimationGraph {
    /// The nodes, indexed by id.
    pub closed spec fn spec_nodes(&self) -> Seq<Node> {
        self.nodes@
    }

    /// How many clips the graph has; clip ids run from `0` below this.
    pub closed spec fn spec_clip_count(&self) -> nat {
        self.clip_count as nat
    }

    /// The graph is well formed: node `0` is a blend node, every edge leads to
    /// an existing node, no blend node has two edges from the same input, and
    /// every clip leaf plays an allocated clip.
    pub closed spec fn wf(&self) -> bool {
        let nodes = self.nodes@;
        &&& 1 <= nodes.len() <= MAX_NODES
        &&& nodes[0] is Blend
        &&& self.clip_count <= MAX_CLIPS
        &&& forall|n: int| 0 <= n < nodes.len() ==> match #[trigger] nodes[n] {
            Node::Clip { clip } => clip.0 < self.clip_count,
            Node::Blend { inputs, .. } => {
                &&& forall|k: int| 0 <= k < inputs@.len() ==> (#[trigger] inputs@[k]).node_id.0 < nodes.len()
                &&& forall|k: int, l: int|
                    0 <= k < l < inputs@.len() ==> (#[trigger] inputs@[k]).node_id != (#[trigger] inputs@[l]).node_id
            },
        }
    }

    /// A graph holding only its root: a blend node with no inputs that
    /// propagates time.
    pub fn new() -> (r: Self)
        ensures
            r.wf(),
            r.spec_nodes().len() == 1,
            blend_inputs(r.spec_nodes()[0]).len() == 0,
            propagates_time(r.spec_nodes()[0]),
            r.spec_clip_count() == 0,
    {
        let mut nodes: Vec<Node> = Vec::new();
        nodes.push(Node::Blend { inputs: Vec::new(), propagate_time: true });
        AnimationGraph { nodes, clip_count: 0 }
    }

    /// The id of the root node.
    pub fn root() -> (r: NodeId)
        ensures
            r.0 == 0,
    {
        NodeId(0)
    }

    /// The number of nodes.
    pub fn node_count(&self) -> (r: usize)
        ensures
            r == self.spec_nodes().len(),
    {
        self.nodes.len()
    }

    /// The number of clips.
    pub fn clip_count(&self) -> (r: u16)
        ensures
            r == self.spec_clip_count(),
    {
        self.clip_count
    }

    /// The clip that node `node` plays, if it is a clip leaf.
    pub fn clip_of(&self, node: NodeId) -> (r: Option<ClipId>)
        ensures
            match r {
                Some(c) => node.0 < self.spec_nodes().len() && self.spec_nodes()[node.0 as int] == (
                Node::Clip { clip: c }),
                None => node.0 >= self.spec_nodes().len() || self.spec_nodes()[node.0 as int] is Blend,
            },
    {
        if (node.0 as usize) < self.nodes.len() {
            match &self.nodes[node.0 as usize] {
                Node::Clip { clip } => Some(*clip),
                Node::Blend { .. } => None,
            }
        } else {
            None
        }
    }

    /// Adds a leaf that plays a newly allocated clip, and returns the leaf's id.
    /// The clip's id is the number of clips the graph had before.
    pub fn add_clip(&mut self) -> (r: NodeId)
        requires
            old(self).wf(),
            old(self).spec_nodes().len() < MAX_NODES,
            old(self).spec_clip_count() < MAX_CLIPS,
        ensures
            final(self).wf(),
            r.0 == old(self).spec_nodes().len(),
            final(self).spec_clip_count() == old(self).spec_clip_count() + 1,
            final(self).spec_nodes() == old(self).spec_nodes().push(
                Node::Clip { clip: ClipId(old(self).spec_clip_count() as u16) },
            ),
    {
        let clip = ClipId(self.clip_count);
        let id = NodeId(self.nodes.len() as u16);
        self.nodes.push(Node::Clip { clip });
        self.clip_count = self.clip_count + 1;
        proof {
            let nodes = self.nodes@;
            assert forall|n: int| 0 <= n < nodes.len() implies match #[trigger] nodes[n] {
                Node::Clip { clip } => clip.0 < self.clip_count,
                Node::Blend { inputs, .. } => {
                    &&& forall|k: int| 0 <= k < inputs@.len() ==> (#[trigger] inputs@[k]).node_id.0 < nodes.len()
                    &&& forall|k: int, l: int|
                        0 <= k < l < inputs@.len() ==> (#[trigger] inputs@[k]).node_id != (#[trigger] inputs@[l]).node_id
                },
            } by {
                if n < nodes.len() - 1 {
                    assert(nodes[n] == old(self).nodes@[n]);
                }
            }
        }
        id
    }

    /// Adds a blend node with no inputs, and returns its id.
    pub fn add_blend(&mut self, propagate_time: bool) -> (r: NodeId)
        requires
            old(self).wf(),
            old(self).spec_nodes().len() < MAX_NODES,
        ensures
            final(self).wf(),
            r.0 == old(self).spec_nodes().len(),
            final(self).spec_clip_count() == old(self).spec_clip_count(),
            final(self).spec_nodes().len() == old(self).spec_nodes().len() + 1,
            forall|n: int| 0 <= n < old(self).spec_nodes().len() ==> #[trigger] final(self).spec_nodes()[n] == old(self).spec_nodes()[n],
            final(self).spec_nodes()[r.0 as int] is Blend,
            blend_inputs(final(self).spec_nodes()[r.0 as int]).len() == 0,
            propagates_time(final(self).spec_nodes()[r.0 as int]) == propagate_time,
    {
        let id = NodeId(self.nodes.len() as u16);
        self.nodes.push(Node::Blend { inputs: Vec::new(), propagate_time });
        proof {
            let nodes = self.nodes@;
            assert forall|n: int| 0 <= n < nodes.len() implies match #[trigger] nodes[n] {
                Node::Clip { clip } => clip.0 < self.clip_count,
                Node::Blend { inputs, .. } => {
                    &&& forall|k: int| 0 <= k < inputs@.len() ==> (#[trigger] inputs@[k]).node_id.0 < nodes.len()
                    &&& forall|k: int, l: int|
                        0 <= k < l < inputs@.len() ==> (#[trigger] inputs@[k]).node_id != (#[trigger] inputs@[l]).node_id
                },
            } by {
                if n < nodes.len() - 1 {
                    assert(nodes[n] == old(self).nodes@[n]);
                }
            }
        }
        id
    }

    /// Adds an edge from node `input` into blend node `target`, connected and
    /// of weight `1.0`. Refused, leaving the graph as it was, when either node
    /// does not exist, when `target` already has an edge from `input`, or when
    /// `target` is a clip leaf.
    pub fn add_input(&mut self, target: NodeId, input: NodeId) -> (r: Result<(), AnimationGraphError>)
        requires
            old(self).wf(),
        ensures
            final(self).wf(),
            final(self).spec_clip_count() == old(self).spec_clip_count(),
            ({
                let nodes = old(self).spec_nodes();
                let t = target.0 as int;
                if input.0 >= nodes.len() {
                    r == Err::<(), _>(AnimationGraphError::NodeNotFound(input))
                } else if t >= nodes.len() {
                    r == Err::<(), _>(AnimationGraphError::NodeNotFound(target))
                } else if nodes[t] is Clip {
                    r == Err::<(), _>(AnimationGraphError::NotBlendNode(target))
                } else if exists|k: int|
                    0 <= k < blend_inputs(nodes[t]).len() && (#[trigger] blend_inputs(nodes[t])[k]).node_id == input {
                    r == Err::<(), _>(AnimationGraphError::InputAlreadyExists(input))
                } else {
                    r is Ok
                }
            }),
            r is Err ==> final(self).spec_nodes() == old(self).spec_nodes(),
            r is Ok ==> {
                let nodes = old(self).spec_nodes();
                let t = target.0 as int;
                &&& final(self).spec_nodes().len() == nodes.len()
                &&& forall|n: int| 0 <= n < nodes.len() && n != t ==> #[trigger] final(self).spec_nodes()[n] == nodes[n]
                &&& final(self).spec_nodes()[t] is Blend
                &&& blend_inputs(final(self).spec_nodes()[t]) == blend_inputs(nodes[t]).push(
                    NodeInput { node_id: input, connected: true, weight: Weight(WEIGHT_ONE_BITS) },
                )
                &&& propagates_time(final(self).spec_nodes()[t]) == propagates_time(nodes[t])
            },
    {
        let len = self.nodes.len();
        if input.0 as usize >= len {
            return Err(AnimationGraphError::NodeNotFound(input));
        }
        if target.0 as usize >= len {
            return Err(AnimationGraphError::NodeNotFound(target));
        }
        let t = target.0 as usize;
        let ghost old_nodes = self.nodes@;
        let found = match &self.nodes[t] {
            Node::Clip { .. } => {
                return Err(AnimationGraphError::NotBlendNode(target));
            },
            Node::Blend { inputs, .. } => {
                let found = find_input(inputs, input);
                if let Some(k) = found {
                    assert(blend_inputs(old_nodes[t as int])[k as int].node_id == input);
                    return Err(AnimationGraphError::InputAlreadyExists(input));
                }
                found
            },
        };
        let (mut inputs, propagate_time) = match &self.nodes[t] {
            Node::Blend { inputs, propagate_time } => (copy_inputs(inputs), *propagate_time),
            Node::Clip { .. } => {
                return Err(AnimationGraphError::NotBlendNode(target));
            },
        };
        inputs.push(NodeInput::new(input));
        self.nodes.set(t, Node::Blend { inputs, propagate_time });
        proof {
            let nodes = self.nodes@;
            assert forall|n: int| 0 <= n < nodes.len() implies match #[trigger] nodes[n] {
                Node::Clip { clip } => clip.0 < self.clip_count,
                Node::Blend { inputs, .. } => {
                    &&& forall|k: int| 0 <= k < inputs@.len() ==> (#[trigger] inputs@[k]).node_id.0 < nodes.len()
                    &&& forall|k: int, l: int|
                        0 <= k < l < inputs@.len() ==> (#[trigger] inputs@[k]).node_id != (#[trigger] inputs@[l]).node_id
                },
            } by {
                if n != t {
                    assert(nodes[n] == old_nodes[n]);
                } else {
                    let ins = blend_inputs(nodes[n]);
                    let old_ins = blend_inputs(old_nodes[n]);
                    assert(ins == old_ins.push(NodeInput::new_spec(input)));
                    assert forall|k: int, l: int| 0 <= k < l < ins.len() implies (#[trigger] ins[k]).node_id != (#[trigger] ins[l]).node_id by {
                        if l == ins.len() - 1 {
                            assert(old_ins[k].node_id != input);
                        } else {
                            assert(ins[k] == old_ins[k]);
                            assert(ins[l] == old_ins[l]);
                        }
                    }
                    assert forall|k: int| 0 <= k < ins.len() implies (#[trigger] ins[k]).node_id.0 < nodes.len() by {
                        if k < ins.len() - 1 {
                            assert(ins[k] == old_ins[k]);
                        }
                    }
                }
            }
        }
        Ok(())
    }

    /// The edge into blend node `target` from node `input`, if there is one.
    pub fn get_input(&self, target: NodeId, input: NodeId) -> (r: Option<NodeInput>)
        ensures
            match r {
                Some(i) => exists|k: int|
                    0 <= k < blend_inputs(self.spec_nodes()[target.0 as int]).len()
                        && i == #[trigger] blend_inputs(self.spec_nodes()[target.0 as int])[k] && i.node_id == input
                        && target.0 < self.spec_nodes().len(),
                None => target.0 >= self.spec_nodes().len() || forall|k: int|
                    0 <= k < blend_inputs(self.spec_nodes()[target.0 as int]).len()
                        ==> (#[trigger] blend_inputs(self.spec_nodes()[target.0 as int])[k]).node_id != input,
            },
    {
        if target.0 as usize >= self.nodes.len() {
            return None;
        }
        match &self.nodes[target.0 as usize] {
            Node::Clip { .. } => None,
            Node::Blend { inputs, .. } => match find_input(inputs, input) {
                Some(k) => {
                    let e = inputs[k];
                    let ghost ins = blend_inputs(self.spec_nodes()[target.0 as int]);
                    assert(inputs@ == ins);
                    assert(e == ins[k as int]);
                    assert(0 <= k < ins.len() && e == ins[k as int] && e.node_id == input
                        && target.0 < self.spec_nodes().len());
                    Some(e)
                },
                None => None,
            },
        }
    }

    /// Sets whether the edge into blend node `target` from node `input` is
    /// connected, and its weight. Fails with `NodeNotFound(target)` when there
    /// is no such node and `NodeNotFound(input)` when it has no such edge.
    pub fn update_input(&mut self, target: NodeId, input: NodeId, connected: bool, weight: Weight) -> (r: Result<
        (),
        AnimationGraphError,
    >)
        requires
            old(self).wf(),
        ensures
            final(self).wf(),
            final(self).spec_clip_count() == old(self).spec_clip_count(),
            ({
                let nodes = old(self).spec_nodes();
                let t = target.0 as int;
                if t >= nodes.len() {
                    r == Err::<(), _>(AnimationGraphError::NodeNotFound(target))
                } else if !exists|k: int|
                    0 <= k < blend_inputs(nodes[t]).len() && (#[trigger] blend_inputs(nodes[t])[k]).node_id == input {
                    r == Err::<(), _>(AnimationGraphError::NodeNotFound(input))
                } else {
                    r is Ok
                }
            }),
            r is Err ==> final(self).spec_nodes() == old(self).spec_nodes(),
            r is Ok ==> {
                let nodes = old(self).spec_nodes();
                let t = target.0 as int;
                &&& final(self).spec_nodes().len() == nodes.len()
                &&& forall|n: int| 0 <= n < nodes.len() && n != t ==> #[trigger] final(self).spec_nodes()[n] == nodes[n]
                &&& final(self).spec_nodes()[t] is Blend
                &&& propagates_time(final(self).spec_nodes()[t]) == propagates_time(nodes[t])
                &&& exists|k: int|
                    0 <= k < blend_inputs(nodes[t]).len() && (#[trigger] blend_inputs(nodes[t])[k]).node_id == input
                        && blend_inputs(final(self).spec_nodes()[t]) == blend_inputs(nodes[t]).update(
                        k,
                        NodeInput { node_id: input, connected, weight },
                    )
            },
    {
        let t = target.0 as usize;
        if t >= self.nodes.len() {
            return Err(AnimationGraphError::NodeNotFound(target));
        }
        let ghost old_nodes = self.nodes@;
        let (mut inputs, propagate_time, k) = match &self.nodes[t] {
            Node::Clip { .. } => {
                return Err(AnimationGraphError::NodeNotFound(input));
            },
            Node::Blend { inputs, propagate_time } => match find_input(inputs, input) {
                Some(k) => (copy_inputs(inputs), *propagate_time, k),
                None => {
                    return Err(AnimationGraphError::NodeNotFound(input));
                },
            },
        };
        let ghost old_ins = blend_inputs(old_nodes[t as int]);
        assert(inputs@ == old_ins);
        assert(old_ins[k as int].node_id == input);
        inputs.set(k, NodeInput { node_id: input, connected, weight });
        self.nodes.set(t, Node::Blend { inputs, propagate_time });
        assert(blend_inputs(self.nodes@[t as int]) == old_ins.update(
            k as int,
            NodeInput { node_id: input, connected, weight },
        ));
        proof {
            let nodes = self.nodes@;
            assert forall|n: int| 0 <= n < nodes.len() implies match #[trigger] nodes[n] {
                Node::Clip { clip } => clip.0 < self.clip_count,
                Node::Blend { inputs, .. } => {
                    &&& forall|k: int| 0 <= k < inputs@.len() ==> (#[trigger] inputs@[k]).node_id.0 < nodes.len()
                    &&& forall|k: int, l: int|
                        0 <= k < l < inputs@.len() ==> (#[trigger] inputs@[k]).node_id != (#[trigger] inputs@[l]).node_id
                },
            } by {
                if n != t {
                    assert(nodes[n] == old_nodes[n]);
                } else {
                    let ins = blend_inputs(nodes[n]);
                    let old_ins = blend_inputs(old_nodes[n]);
                    assert forall|a: int, b: int| 0 <= a < b < ins.len() implies (#[trigger] ins[a]).node_id != (#[trigger] ins[b]).node_id by {
                        assert(ins[a].node_id == old_ins[a].node_id);
                        assert(ins[b].node_id == old_ins[b].node_id);
                    }
                    assert forall|a: int| 0 <= a < ins.len() implies (#[trigger] ins[a]).node_id.0 < nodes.len() by {
                        assert(ins[a].node_id == old_ins[a].node_id);
                    }
                }
            }
        }
        Ok(())
    }
}

impl AnimationGraph {
    /// Traverses the graph depth first from the root, following only
    /// connected edges of non-zero weight, and returns each clip leaf reached
    /// with the path taken to it. A clip's influence is the sum, over its
    /// paths, of the product of the path's weights; nodes that are reached
    /// only through pruned edges are never visited.
    pub fn evaluate(&self) -> (r: Vec<Influence>)
        ensures
            influence_views(r@) == influences_from(
                self.spec_nodes(),
                0,
                self.spec_nodes().len(),
                Seq::empty(),
            ),
    {
        let mut prefix: Vec<Step> = Vec::new();
        let mut out: Vec<Influence> = Vec::new();
        assert(influence_views(out@) =~= Seq::empty());
        self.collect(NodeId(0), self.nodes.len(), &mut prefix, &mut out);
        assert(influence_views(out@) =~= Seq::empty() + influences_from(
            self.spec_nodes(),
            0,
            self.spec_nodes().len(),
            Seq::empty(),
        ));
        out
    }

    fn collect(&self, id: NodeId, fuel: usize, prefix: &mut Vec<Step>, out: &mut Vec<Influence>)
        ensures
            final(prefix)@ == old(prefix)@,
            influence_views(final(out)@) == influence_views(old(out)@) + influences_from(
                self.spec_nodes(),
                id.0 as int,
                fuel as nat,
                old(prefix)@,
            ),
        decreases fuel,
    {
        let ghost nodes = self.spec_nodes();
        let ghost out0 = influence_views(out@);
        if id.0 as usize >= self.nodes.len() {
            assert(influence_views(out@) =~= out0 + Seq::empty());
            return;
        }
        match &self.nodes[id.0 as usize] {
            Node::Clip { clip } => {
                let path = copy_steps(prefix);
                out.push(Influence { clip: *clip, path });
                assert(influence_views(out@) =~= out0 + seq![(*clip, prefix@)]);
            },
            Node::Blend { inputs, .. } => {
                if fuel == 0 {
                    assert(influence_views(out@) =~= out0 + Seq::empty());
                    return;
                }
                let ghost p0 = prefix@;
                let mut k: usize = 0;
                assert(influence_views(out@) =~= out0 + inputs_influences(
                    nodes,
                    inputs@.take(0),
                    (fuel - 1) as nat,
                    p0,
                ));
                while k < inputs.len()
                    invariant
                        k <= inputs@.len(),
                        nodes == self.spec_nodes(),
                        prefix@ == p0,
                        fuel > 0,
                        influence_views(out@) == out0 + inputs_influences(
                            nodes,
                            inputs@.take(k as int),
                            (fuel - 1) as nat,
                            p0,
                        ),
                    decreases inputs@.len() - k,
                {
                    let input = inputs[k];
                    let ghost before = influence_views(out@);
                    assert(inputs@.take(k + 1).drop_last() =~= inputs@.take(k as int));
                    assert(inputs@.take(k + 1).last() == input);
                    if input.connected && !input.weight.is_zero() {
                        prefix.push(Step { node: input.node_id, weight: input.weight });
                        self.collect(input.node_id, fuel - 1, prefix, out);
                        prefix.pop();
                        assert(prefix@ =~= p0);
                        assert(influence_views(out@) =~= out0 + inputs_influences(
                            nodes,
                            inputs@.take(k + 1),
                            (fuel - 1) as nat,
                            p0,
                        ));
                    }
                    k = k + 1;
                }
                assert(inputs@.take(k as int) =~= inputs@);
            },
        }
    }

}

/// Whether `steps` is a walk from node `from` along active edges: each step
/// follows a connected edge of non-zero weight out of the node before it,
/// and carries that edge's weight.
pub open spec fn is_active_walk(nodes: Seq<Node>, from: int, steps: Seq<Step>) -> bool
    decreases steps.len(),
{
    if steps.len() == 0 {
        true
    } else {
        &&& 0 <= from < nodes.len()
        &&& exists|k: int|
            0 <= k < blend_inputs(nodes[from]).len() && is_active(
                #[trigger] blend_inputs(nodes[from])[k],
            ) && blend_inputs(nodes[from])[k].node_id == steps[0].node && blend_inputs(
                nodes[from],
            )[k].weight == steps[0].weight
        &&& is_active_walk(nodes, steps[0].node.0 as int, steps.drop_first())
    }
}

/// The node that a walk from `from` ends at.
pub open spec fn walk_end(from: int, steps: Seq<Step>) -> int {
    if steps.len() == 0 {
        from
    } else {
        steps.last().node.0 as int
    }
}

/// Whether `x` is a clip reached from node `id` by an active walk, recorded
/// after `prefix`.
pub open spec fn reached_from(nodes: Seq<Node>, id: int, prefix: Seq<Step>, x: (ClipId, Seq<Step>)) -> bool {
    let p = x.1;
    let walk = p.subrange(prefix.len() as int, p.len() as int);
    &&& prefix.len() <= p.len()
    &&& p.subrange(0, prefix.len() as int) == prefix
    &&& is_active_walk(nodes, id, walk)
    &&& 0 <= walk_end(id, walk) < nodes.len()
    &&& nodes[walk_end(id, walk)] == (Node::Clip { clip: x.0 })
}

proof fn lemma_influences_reached(nodes: Seq<Node>, id: int, fuel: nat, prefix: Seq<Step>)
    ensures
        forall|j: int|
            0 <= j < influences_from(nodes, id, fuel, prefix).len() ==> reached_from(
                nodes,
                id,
                prefix,
                #[trigger] influences_from(nodes, id, fuel, prefix)[j],
            ),
    decreases fuel, 0nat,
{
    if 0 <= id < nodes.len() {
        match nodes[id] {
            Node::Clip { clip } => {
                let x = (clip, prefix);
                assert(prefix.subrange(prefix.len() as int, prefix.len() as int) =~= Seq::<Step>::empty());
                assert(prefix.subrange(0, prefix.len() as int) =~= prefix);
                assert(reached_from(nodes, id, prefix, x));
                assert(influences_from(nodes, id, fuel, prefix) == seq![x]);
            },
            Node::Blend { inputs, .. } => {
                if fuel > 0 {
                    assert(inputs@.take(inputs@.len() as int) =~= inputs@);
                    lemma_inputs_reached(nodes, id, inputs@, (fuel - 1) as nat, prefix);
                    assert(influences_from(nodes, id, fuel, prefix) == inputs_influences(
                        nodes,
                        inputs@,
                        (fuel - 1) as nat,
                        prefix,
                    ));
                }
            },
        }
    }
}

proof fn lemma_inputs_reached(nodes: Seq<Node>, id: int, ins: Seq<NodeInput>, fuel: nat, prefix: Seq<Step>)
    requires
        0 <= id < nodes.len(),
        ins.len() <= blend_inputs(nodes[id]).len(),
        ins == blend_inputs(nodes[id]).take(ins.len() as int),
    ensures
        forall|j: int|
            0 <= j < inputs_influences(nodes, ins, fuel, prefix).len() ==> reached_from(
                nodes,
                id,
                prefix,
                #[trigger] inputs_influences(nodes, ins, fuel, prefix)[j],
            ),
    decreases fuel, ins.len() + 1,
{
    if ins.len() > 0 {
        let rest = inputs_influences(nodes, ins.drop_last(), fuel, prefix);
        assert(ins.drop_last() == blend_inputs(nodes[id]).take(ins.len() - 1));
        lemma_inputs_reached(nodes, id, ins.drop_last(), fuel, prefix);
        let i = ins.last();
        if is_active(i) {
            let step = Step { node: i.node_id, weight: i.weight };
            let p2 = prefix.push(step);
            let sub = influences_from(nodes, i.node_id.0 as int, fuel, p2);
            lemma_influences_reached(nodes, i.node_id.0 as int, fuel, p2);
            let all = inputs_influences(nodes, ins, fuel, prefix);
            assert(all == rest + sub);
            assert forall|j: int| 0 <= j < all.len() implies reached_from(nodes, id, prefix, #[trigger] all[j]) by {
                if j < rest.len() {
                    assert(all[j] == rest[j]);
                } else {
                    let x = sub[j - rest.len()];
                    assert(all[j] == x);
                    assert(reached_from(nodes, i.node_id.0 as int, p2, x));
                    let p = x.1;
                    let w2 = p.subrange(p2.len() as int, p.len() as int);
                    let w = p.subrange(prefix.len() as int, p.len() as int);
                    assert(p[prefix.len() as int] == p.subrange(0, p2.len() as int)[prefix.len() as int]);
                    assert(w[0] == step);
                    assert(w.drop_first() =~= w2);
                    assert(p.subrange(0, prefix.len() as int) =~= p2.subrange(0, prefix.len() as int));
                    assert(p2.subrange(0, prefix.len() as int) =~= prefix);
                    let k = ins.len() - 1;
                    assert(blend_inputs(nodes[id])[k] == i);
                    assert(is_active(blend_inputs(nodes[id])[k]));
                    assert(is_active_walk(nodes, id, w));
                    if w2.len() > 0 {
                        assert(w.last() == w2.last());
                    }
                }
            }
        } else {
            assert(inputs_influences(nodes, ins, fuel, prefix) == rest);
        }
    }
}

/// Evaluation prunes the graph: each clip it returns is reached from the
/// root by a walk of connected edges of non-zero weight, whose steps are the
/// path returned with it, and which ends at that clip's leaf. So a node
/// reached only through a disconnected or zero-weight edge is never visited.
pub proof fn lemma_evaluate_follows_active_edges(g: AnimationGraph)
    ensures
        forall|j: int|
            0 <= j < influences_from(g.spec_nodes(), 0, g.spec_nodes().len(), Seq::empty()).len()
                ==> reached_from(
                g.spec_nodes(),
                0,
                Seq::empty(),
                #[trigger] influences_from(g.spec_nodes(), 0, g.spec_nodes().len(), Seq::empty())[j],
            ),
{
    lemma_influences_reached(g.spec_nodes(), 0, g.spec_nodes().len(), Seq::empty());
}

/// Whether a time set on node `n` passes along its input `j` to node `m`:
/// `n` is a blend node that propagates time, and that input is connected and
/// comes from `m`.
pub open spec fn time_edge(nodes: Seq<Node>, n: int, j: int, m: int) -> bool {
    &&& 0 <= n < nodes.len()
    &&& propagates_time(nodes[n])
    &&& 0 <= j < blend_inputs(nodes[n]).len()
    &&& blend_inputs(nodes[n])[j].connected
    &&& blend_inputs(nodes[n])[j].node_id.0 == m
}

/// Whether a time set on node `start` reaches node `m` within `k` steps.
pub open spec fn time_reached(nodes: Seq<Node>, start: int, k: nat, m: int) -> bool
    decreases k,
{
    if k == 0 {
        m == start
    } else {
        time_reached(nodes, start, (k - 1) as nat, m) || exists|n: int, j: int|
            time_reached(nodes, start, (k - 1) as nat, n) && #[trigger] time_edge(nodes, n, j, m)
    }
}

/// Whether node `m` is reached for the first time at step `k`.
pub open spec fn time_fresh(nodes: Seq<Node>, start: int, k: nat, m: int) -> bool {
    time_reached(nodes, start, k, m) && (k == 0 || !time_reached(nodes, start, (k - 1) as nat, m))
}

/// Whether clip `c` takes a time set on node `start`: some node that the time
/// reaches is a leaf playing `c`. Every reachable node is reached within as
/// many steps as the graph has nodes.
pub open spec fn takes_time(nodes: Seq<Node>, start: int, c: ClipId) -> bool {
    exists|m: int|
        0 <= m < nodes.len() && #[trigger] time_reached(nodes, start, nodes.len(), m) && nodes[m] == (
        Node::Clip { clip: c })
}

/// The clips of the marked nodes among the first `m`, in node order.
pub open spec fn visited_clips(nodes: Seq<Node>, vis: Seq<bool>, m: int) -> Seq<ClipId>
    decreases m,
{
    if m <= 0 {
        Seq::empty()
    } else {
        let rest = visited_clips(nodes, vis, m - 1);
        match nodes[m - 1] {
            Node::Clip { clip } => if vis[m - 1] {
                rest.push(clip)
            } else {
                rest
            },
            Node::Blend { .. } => rest,
        }
    }
}

proof fn lemma_visited_clips(nodes: Seq<Node>, vis: Seq<bool>, m: int, c: ClipId)
    requires
        0 <= m <= nodes.len(),
        m <= vis.len(),
    ensures
        visited_clips(nodes, vis, m).contains(c) <==> exists|x: int|
            0 <= x < m && vis[x] && nodes[x] == (Node::Clip { clip: c }),
    decreases m,
{
    if m > 0 {
        lemma_visited_clips(nodes, vis, m - 1, c);
        let rest = visited_clips(nodes, vis, m - 1);
        let all = visited_clips(nodes, vis, m);
        if all.contains(c) {
            let k = choose|k: int| 0 <= k < all.len() && all[k] == c;
            if k < rest.len() {
                assert(all[k] == rest[k]);
                assert(rest.contains(c));
            } else {
                assert(vis[m - 1] && nodes[m - 1] == (Node::Clip { clip: c }));
            }
        }
        if exists|x: int| 0 <= x < m && vis[x] && nodes[x] == (Node::Clip { clip: c }) {
            let x = choose|x: int| 0 <= x < m && vis[x] && nodes[x] == (Node::Clip { clip: c });
            if x < m - 1 {
                assert(rest.contains(c));
                let k = choose|k: int| 0 <= k < rest.len() && rest[k] == c;
                assert(all[k] == c);
            } else {
                assert(all[all.len() - 1] == c);
            }
        }
    }
}

impl AnimationGraph {
    proof fn lemma_reached_in_range(&self, start: int, k: nat, m: int)
        requires
            self.wf(),
            0 <= start < self.nodes@.len(),
            time_reached(self.nodes@, start, k, m),
        ensures
            0 <= m < self.nodes@.len(),
        decreases k,
    {
        let nodes = self.nodes@;
        if k > 0 && !time_reached(nodes, start, (k - 1) as nat, m) {
            let (n, j) = choose|n: int, j: int|
                time_reached(nodes, start, (k - 1) as nat, n) && #[trigger] time_edge(nodes, n, j, m);
            assert(nodes[n] is Blend);
            let ins = blend_inputs(nodes[n]);
            assert(ins[j].node_id.0 < nodes.len());
        } else if k > 0 {
            self.lemma_reached_in_range(start, (k - 1) as nat, m);
        }
    }

    /// Sets a time on node `node`, breadth first, and returns the clips that
    /// take it: a clip leaf takes the time, and a blend node whose
    /// `propagate_time` is set passes it on through each connected edge. A
    /// blend node whose `propagate_time` is not set takes the time and passes
    /// nothing on. Each node is visited at most once.
    pub fn time_targets(&self, node: NodeId) -> (r: Result<Vec<ClipId>, AnimationGraphError>)
        requires
            self.wf(),
        ensures
            node.0 >= self.spec_nodes().len() ==> r == Err::<Vec<ClipId>, _>(
                AnimationGraphError::NodeNotFound(node),
            ),
            node.0 < self.spec_nodes().len() ==> r is Ok && forall|c: ClipId|
                #[trigger] r->Ok_0@.contains(c) <==> takes_time(self.spec_nodes(), node.0 as int, c),
    {
        let len = self.nodes.len();
        if node.0 as usize >= len {
            return Err(AnimationGraphError::NodeNotFound(node));
        }
        let ghost nodes = self.nodes@;
        let ghost start = node.0 as int;
        let mut visited: Vec<bool> = Vec::new();
        let mut v: usize = 0;
        while v < len
            invariant
                v <= len,
                start == node.0 as int,
                visited@.len() == v,
                forall|m: int| 0 <= m < v ==> visited@[m] == (m == start),
            decreases len - v,
        {
            let ghost before = visited@;
            visited.push(v == node.0 as usize);
            assert(visited@ =~= before.push(v as int == start));
            v = v + 1;
        }
        let mut frontier: Vec<u16> = Vec::new();
        frontier.push(node.0);
        assert(frontier@[0] as int == start);
        let mut level: usize = 0;
        while level < len
            invariant
                self.wf(),
                nodes == self.nodes@,
                len == nodes.len(),
                0 <= start < len,
                level <= len,
                visited@.len() == len,
                forall|m: int| 0 <= m < len ==> visited@[m] == time_reached(nodes, start, level as nat, m),
                forall|i: int|
                    0 <= i < frontier@.len() ==> time_fresh(nodes, start, level as nat, #[trigger] frontier@[i] as int),
                forall|n: int|
                    time_fresh(nodes, start, level as nat, n) ==> exists|i: int|
                        0 <= i < frontier@.len() && #[trigger] frontier@[i] as int == n,
            decreases len - level,
        {
            let ghost lv = level as nat;
            let mut next: Vec<u16> = Vec::new();
            let mut i: usize = 0;
            while i < frontier.len()
                invariant
                    self.wf(),
                    nodes == self.nodes@,
                    len == nodes.len(),
                    0 <= start < len,
                    visited@.len() == len,
                    i <= frontier@.len(),
                    forall|f: int|
                        0 <= f < frontier@.len() ==> time_fresh(nodes, start, lv, #[trigger] frontier@[f] as int),
                    forall|m: int|
                        0 <= m < len ==> (visited@[m] <==> (time_reached(nodes, start, lv, m) || exists|
                            i2: int,
                            j2: int,
                        | 0 <= i2 < i && #[trigger] time_edge(nodes, frontier@[i2] as int, j2, m))),
                    forall|x: int| 0 <= x < next@.len() ==> (#[trigger] next@[x] as int) < len,
                    forall|x: int|
                        0 <= x < next@.len() ==> visited@[#[trigger] next@[x] as int] && !time_reached(
                            nodes,
                            start,
                            lv,
                            next@[x] as int,
                        ),
                    forall|m: int|
                        0 <= m < len && visited@[m] && !time_reached(nodes, start, lv, m) ==> exists|x: int|
                            0 <= x < next@.len() && #[trigger] next@[x] as int == m,
                decreases frontier@.len() - i,
            {
                let n = frontier[i];
                proof {
                    self.lemma_reached_in_range(start, lv, n as int);
                }
                match &self.nodes[n as usize] {
                    Node::Blend { inputs, propagate_time } => {
                        if *propagate_time {
                            let mut j: usize = 0;
                            while j < inputs.len()
                                invariant
                                    self.wf(),
                                    nodes == self.nodes@,
                                    len == nodes.len(),
                                    0 <= n < len,
                                    i < frontier@.len(),
                                    frontier@[i as int] == n,
                                    nodes[n as int] is Blend,
                                    propagates_time(nodes[n as int]),
                                    inputs@ == blend_inputs(nodes[n as int]),
                                    j <= inputs@.len(),
                                    visited@.len() == len,
                                    forall|m: int|
                                        0 <= m < len ==> (visited@[m] <==> (time_reached(nodes, start, lv, m) || (exists|
                                            i2: int,
                                            j2: int,
                                        | 0 <= i2 < i && #[trigger] time_edge(nodes, frontier@[i2] as int, j2, m))
                                            || exists|j2: int| 0 <= j2 < j && #[trigger] time_edge(nodes, n as int, j2, m))),
                                    forall|x: int| 0 <= x < next@.len() ==> (#[trigger] next@[x] as int) < len,
                                    forall|x: int|
                                        0 <= x < next@.len() ==> visited@[#[trigger] next@[x] as int] && !time_reached(
                                            nodes,
                                            start,
                                            lv,
                                            next@[x] as int,
                                        ),
                                    forall|m: int|
                                        0 <= m < len && visited@[m] && !time_reached(nodes, start, lv, m) ==> exists|x: int|
                                            0 <= x < next@.len() && #[trigger] next@[x] as int == m,
                                decreases inputs@.len() - j,
                            {
                                let input = inputs[j];
                                if input.connected {
                                    let m = input.node_id.0;
                                    assert(time_edge(nodes, n as int, j as int, m as int));
                                    assert((m as int) < len);
                                    if !visited[m as usize] {
                                        let ghost vis0 = visited@;
                                        let ghost next0 = next@;
                                        proof {
                                            assert(!time_reached(nodes, start, lv, m as int));
                                        }
                                        visited.set(m as usize, true);
                                        next.push(m);
                                        proof {
                                            assert(next@[next@.len() - 1] as int == m as int);
                                            assert forall|x: int| 0 <= x < next@.len() implies visited@[#[trigger] next@[x] as int]
                                                && !time_reached(nodes, start, lv, next@[x] as int) by {
                                                if x < next0.len() {
                                                    assert(next@[x] == next0[x]);
                                                }
                                            }
                                            assert forall|m2: int|
                                                0 <= m2 < len && visited@[m2] && !time_reached(nodes, start, lv, m2) implies exists|x: int|
                                                    0 <= x < next@.len() && #[trigger] next@[x] as int == m2 by {
                                                if m2 != m as int {
                                                    assert(vis0[m2]);
                                                    let x = choose|x: int| 0 <= x < next0.len() && #[trigger] next0[x] as int == m2;
                                                    assert(next@[x] == next0[x]);
                                                } else {
                                                    assert(next@[next@.len() - 1] as int == m2);
                                                }
                                            }
                                        }
                                    }
                                }
                                proof {
                                    assert forall|m2: int| 0 <= m2 < len implies (visited@[m2] <==> (time_reached(nodes, start, lv, m2) || (exists|
                                        i2: int,
                                        j2: int,
                                    | 0 <= i2 < i && #[trigger] time_edge(nodes, frontier@[i2] as int, j2, m2))
                                        || exists|j2: int| 0 <= j2 < j + 1 && #[trigger] time_edge(nodes, n as int, j2, m2))) by {
                                        if exists|j2: int| 0 <= j2 < j + 1 && #[trigger] time_edge(nodes, n as int, j2, m2) {
                                            let j2 = choose|j2: int| 0 <= j2 < j + 1 && #[trigger] time_edge(nodes, n as int, j2, m2);
                                            if j2 == j {
                                                assert(visited@[m2]);
                                            }
                                        }
                                    }
                                }
                                j = j + 1;
                            }
                            proof {
                                assert forall|m2: int| 0 <= m2 < len implies (visited@[m2] <==> (time_reached(nodes, start, lv, m2) || exists|
                                    i2: int,
                                    j2: int,
                                | 0 <= i2 < i + 1 && #[trigger] time_edge(nodes, frontier@[i2] as int, j2, m2))) by {
                                    if exists|i2: int, j2: int| 0 <= i2 < i + 1 && #[trigger] time_edge(nodes, frontier@[i2] as int, j2, m2) {
                                        let (i2, j2) = choose|i2: int, j2: int| 0 <= i2 < i + 1 && #[trigger] time_edge(nodes, frontier@[i2] as int, j2, m2);
                                        if i2 == i {
                                            assert(time_edge(nodes, n as int, j2, m2));
                                        }
                                    }
                                    if exists|j2: int| 0 <= j2 < j && #[trigger] time_edge(nodes, n as int, j2, m2) {
                                        let j2 = choose|j2: int| 0 <= j2 < j && #[trigger] time_edge(nodes, n as int, j2, m2);
                                        assert(time_edge(nodes, frontier@[i as int] as int, j2, m2));
                                    }
                                }
                            }
                        } else {
                            proof {
                                assert forall|m2: int| 0 <= m2 < len implies (visited@[m2] <==> (time_reached(nodes, start, lv, m2) || exists|
                                    i2: int,
                                    j2: int,
                                | 0 <= i2 < i + 1 && #[trigger] time_edge(nodes, frontier@[i2] as int, j2, m2))) by {
                                    if exists|i2: int, j2: int| 0 <= i2 < i + 1 && #[trigger] time_edge(nodes, frontier@[i2] as int, j2, m2) {
                                        let (i2, j2) = choose|i2: int, j2: int| 0 <= i2 < i + 1 && #[trigger] time_edge(nodes, frontier@[i2] as int, j2, m2);
                                        assert(i2 != i);
                                    }
                                }
                            }
                        }
                    },
                    Node::Clip { .. } => {
                        proof {
                            assert forall|m2: int| 0 <= m2 < len implies (visited@[m2] <==> (time_reached(nodes, start, lv, m2) || exists|
                                i2: int,
                                j2: int,
                            | 0 <= i2 < i + 1 && #[trigger] time_edge(nodes, frontier@[i2] as int, j2, m2))) by {
                                if exists|i2: int, j2: int| 0 <= i2 < i + 1 && #[trigger] time_edge(nodes, frontier@[i2] as int, j2, m2) {
                                    let (i2, j2) = choose|i2: int, j2: int| 0 <= i2 < i + 1 && #[trigger] time_edge(nodes, frontier@[i2] as int, j2, m2);
                                    assert(i2 != i);
                                }
                            }
                        }
                    },
                }
                i = i + 1;
            }
            proof {
                let nl = (lv + 1) as nat;
                assert forall|m: int| 0 <= m < len implies visited@[m] == time_reached(nodes, start, nl, m) by {
                    if visited@[m] && !time_reached(nodes, start, lv, m) {
                        let (i2, j2) = choose|i2: int, j2: int|
                            0 <= i2 < frontier@.len() && #[trigger] time_edge(nodes, frontier@[i2] as int, j2, m);
                        assert(time_fresh(nodes, start, lv, frontier@[i2] as int));
                        assert(time_reached(nodes, start, lv, frontier@[i2] as int) && time_edge(nodes, frontier@[i2] as int, j2, m));
                    }
                    if time_reached(nodes, start, nl, m) && !time_reached(nodes, start, lv, m) {
                        let (n2, j2) = choose|n2: int, j2: int|
                            time_reached(nodes, start, lv, n2) && #[trigger] time_edge(nodes, n2, j2, m);
                        if time_fresh(nodes, start, lv, n2) {
                            let f = choose|f: int| 0 <= f < frontier@.len() && #[trigger] frontier@[f] as int == n2;
                            assert(time_edge(nodes, frontier@[f] as int, j2, m));
                        } else {
                            assert(lv > 0 && time_reached(nodes, start, (lv - 1) as nat, n2));
                            assert(time_reached(nodes, start, lv, m));
                        }
                    }
                }
                assert forall|x: int| 0 <= x < next@.len() implies time_fresh(nodes, start, nl, #[trigger] next@[x] as int) by {
                    let m = next@[x] as int;
                    assert(visited@[m]);
                    assert(time_reached(nodes, start, nl, m));
                }
                assert forall|n2: int| time_fresh(nodes, start, nl, n2) implies exists|x: int|
                    0 <= x < next@.len() && #[trigger] next@[x] as int == n2 by {
                    self.lemma_reached_in_range(start, nl, n2);
                    assert(visited@[n2]);
                }
            }
            frontier = next;
            level = level + 1;
        }
        let mut out: Vec<ClipId> = Vec::new();
        let mut m: usize = 0;
        while m < len
            invariant
                nodes == self.nodes@,
                len == nodes.len(),
                m <= len,
                visited@.len() == len,
                out@ == visited_clips(nodes, visited@, m as int),
            decreases len - m,
        {
            if visited[m] {
                match &self.nodes[m] {
                    Node::Clip { clip } => {
                        out.push(*clip);
                    },
                    Node::Blend { .. } => {},
                }
            }
            m = m + 1;
        }
        proof {
            assert forall|c: ClipId| #[trigger] out@.contains(c) <==> takes_time(nodes, start, c) by {
                lemma_visited_clips(nodes, visited@, len as int, c);
                if takes_time(nodes, start, c) {
                    let x = choose|x: int|
                        0 <= x < nodes.len() && #[trigger] time_reached(nodes, start, nodes.len(), x) && nodes[x] == (
                        Node::Clip { clip: c });
                    assert(visited@[x]);
                }
                if out@.contains(c) {
                    let x = choose|x: int| 0 <= x < len && visited@[x] && nodes[x] == (Node::Clip { clip: c });
                    assert(time_reached(nodes, start, nodes.len(), x));
                }
            }
        }
        Ok(out)
    }
}

proof fn lemma_only_start_reached(nodes: Seq<Node>, start: int, k: nat, m: int)
    requires
        0 <= start < nodes.len(),
        !propagates_time(nodes[start]),
    ensures
        time_reached(nodes, start, k, m) ==> m == start,
    decreases k,
{
    if k > 0 && time_reached(nodes, start, k, m) && !time_reached(nodes, start, (k - 1) as nat, m) {
        let (n, j) = choose|n: int, j: int|
            time_reached(nodes, start, (k - 1) as nat, n) && #[trigger] time_edge(nodes, n, j, m);
        lemma_only_start_reached(nodes, start, (k - 1) as nat, n);
    } else if k > 0 {
        lemma_only_start_reached(nodes, start, (k - 1) as nat, m);
    }
}

/// A time set on a blend node that does not propagate time reaches that node
/// alone, and no clip takes it: the times of everything below it stay as
/// they were.
pub proof fn lemma_non_propagating_node_keeps_input_times(g: AnimationGraph, node: NodeId)
    requires
        node.0 < g.spec_nodes().len(),
        g.spec_nodes()[node.0 as int] is Blend,
        !propagates_time(g.spec_nodes()[node.0 as int]),
    ensures
        forall|k: nat, m: int| #[trigger] time_reached(g.spec_nodes(), node.0 as int, k, m) ==> m == node.0,
        forall|c: ClipId| !takes_time(g.spec_nodes(), node.0 as int, c),
{
    let nodes = g.spec_nodes();
    assert forall|k: nat, m: int| #[trigger] time_reached(nodes, node.0 as int, k, m) implies m == node.0 by {
        lemma_only_start_reached(nodes, node.0 as int, k, m);
    }
    assert forall|c: ClipId| !takes_time(nodes, node.0 as int, c) by {
        if takes_time(nodes, node.0 as int, c) {
            let x = choose|x: int|
                0 <= x < nodes.len() && #[trigger] time_reached(nodes, node.0 as int, nodes.len(), x) && nodes[x] == (
                Node::Clip { clip: c });
            lemma_only_start_reached(nodes, node.0 as int, nodes.len(), x);
        }
    }
}

/// A copy of a path.
fn copy_steps(steps: &Vec<Step>) -> (r: Vec<Step>)
    ensures
        r@ == steps@,
{
    let mut r: Vec<Step> = Vec::new();
    let mut k: usize = 0;
    while k < steps.len()
        invariant
            k <= steps@.len(),
            r@ == steps@.take(k as int),
        decreases steps@.len() - k,
    {
        r.push(steps[k]);
        k = k + 1;
        assert(r@ =~= steps@.take(k as int));
    }
    assert(steps@.take(k as int) =~= steps@);
    r
}

impl NodeInput {
    pub open spec fn new_spec(node_id: NodeId) -> NodeInput {
        NodeInput { node_id, connected: true, weight: Weight(WEIGHT_ONE_BITS) }
    }
}

/// The position of the edge from `input` among `inputs`, if there is one.
fn find_input(inputs: &Vec<NodeInput>, input: NodeId) -> (r: Option<usize>)
    ensures
        match r {
            Some(k) => k < inputs@.len() && inputs@[k as int].node_id == input,
            None => forall|k: int| 0 <= k < inputs@.len() ==> (#[trigger] inputs@[k]).node_id != input,
        },
{
    let mut k: usize = 0;
    while k < inputs.len()
        invariant
            k <= inputs@.len(),
            forall|j: int| 0 <= j < k ==> (#[trigger] inputs@[j]).node_id != input,
        decreases inputs@.len() - k,
    {
        if inputs[k].node_id.0 == input.0 {
            return Some(k);
        }
        k = k + 1;
    }
    None
}

/// A copy of a list of edges.
fn copy_inputs(inputs: &Vec<NodeInput>) -> (r: Vec<NodeInput>)
    ensures
        r@ == inputs@,
{
    let mut r: Vec<NodeInput> = Vec::new();
    let mut k: usize = 0;
    while k < inputs.len()
        invariant
            k <= inputs@.len(),
            r@ == inputs@.take(k as int),
        decreases inputs@.len() - k,
    {
        r.push(inputs[k]);
        k = k + 1;
        assert(r@ =~= inputs@.take(k as int));
    }
    assert(inputs@.take(k as int) =~= inputs@);
    r
}

} // verus!
