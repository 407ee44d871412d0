//! What a build has laid out but not written yet.

use vstd::prelude::*;
use crate::graph::GraphMode;
use crate::layout::GraphLayoutEdge;
use crate::layout::GraphLayoutNode;

verus! {

/// The laid out nodes and edges of a mode that are not written yet.
#[derive(Debug)]
pub struct BufferedModeItems {
    pub mode: GraphMode,
    pub nodes: Vec<GraphLayoutNode>,
    pub edges: Vec<GraphLayoutEdge>,
}

/// Adds two sizes, as far as a `usize` reaches.
pub open spec fn bounded_sum(a: int, b: int) -> int {
    if a + b > usize::MAX {
        usize::MAX as int
    } else {
        a + b
    }
}

fn sum_of(a: usize, b: usize) -> (sum: usize)
    ensures
        sum == bounded_sum(a as int, b as int),
{
    if a > usize::MAX - b {
        usize::MAX
    } else {
        a + b
    }
}

impl BufferedModeItems {
    /// Nothing of a mode.
    pub fn new(mode: GraphMode) -> (items: Self)
        ensures
            items.mode == mode,
            items.nodes@.len() == 0,
            items.edges@.len() == 0,
    {
        BufferedModeItems { mode, nodes: Vec::new(), edges: Vec::new() }
    }

    /// How many nodes and edges there are.
    pub open spec fn size(&self) -> int {
        bounded_sum(self.nodes@.len() as int, self.edges@.len() as int)
    }

    /// How many nodes and edges there are.
    pub fn len(&self) -> (size: usize)
        ensures
            size == self.size(),
    {
        sum_of(self.nodes.len(), self.edges.len())
    }

    /// Whether there is nothing.
    pub fn is_empty(&self) -> (empty: bool)
        ensures
            empty == (self.nodes@.len() == 0 && self.edges@.len() == 0),
    {
        self.nodes.len() == 0 && self.edges.len() == 0
    }
}

/// The laid out nodes and edges that are not written yet.
#[derive(Debug)]
pub struct GraphBuffer {
    pub anchors: BufferedModeItems,
    pub all: BufferedModeItems,
    pub limit: usize,
}

impl GraphBuffer {
    /// The two parts hold what their names say, and the limit can be reached.
    pub open spec fn wf(&self) -> bool {
        &&& self.anchors.mode == GraphMode::Anchors
        &&& self.all.mode == GraphMode::All
        &&& self.limit > 0
    }

    /// The nodes of a mode.
    pub open spec fn nodes_of(&self, mode: GraphMode) -> Seq<GraphLayoutNode> {
        match mode {
            GraphMode::Anchors => self.anchors.nodes@,
            GraphMode::All => self.all.nodes@,
        }
    }

    /// The edges of a mode.
    pub open spec fn edges_of(&self, mode: GraphMode) -> Seq<GraphLayoutEdge> {
        match mode {
            GraphMode::Anchors => self.anchors.edges@,
            GraphMode::All => self.all.edges@,
        }
    }

    /// How many nodes and edges wait.
    pub open spec fn size(&self) -> int {
        bounded_sum(self.anchors.size(), self.all.size())
    }

    /// Whether what waits is to be written.
    pub open spec fn full(&self) -> bool {
        self.size() >= self.limit
    }

    /// An empty buffer. A limit of zero counts as one.
    pub fn new(limit: usize) -> (buffer: Self)
        ensures
            buffer.wf(),
            buffer.limit == (if limit == 0 {
                1
            } else {
                limit as int
            }),
            forall|mode: GraphMode| (#[trigger] buffer.nodes_of(mode)).len() == 0,
            forall|mode: GraphMode| (#[trigger] buffer.edges_of(mode)).len() == 0,
    {
        GraphBuffer {
            anchors: BufferedModeItems::new(GraphMode::Anchors),
            all: BufferedModeItems::new(GraphMode::All),
            limit: if limit == 0 {
                1
            } else {
                limit
            },
        }
    }

    /// How many nodes and edges wait.
    pub fn len(&self) -> (size: usize)
        ensures
            size == self.size(),
    {
        sum_of(self.anchors.len(), self.all.len())
    }

    /// Whether what waits is to be written.
    pub fn should_flush(&self) -> (full: bool)
        ensures
            full == self.full(),
    {
        self.len() >= self.limit
    }

    /// Adds a node, and says whether what waits is to be written.
    pub fn push_buffered_node(&mut self, mode: GraphMode, node: GraphLayoutNode) -> (flush: bool)
        requires
            old(self).wf(),
        ensures
            final(self).wf(),
            final(self).limit == old(self).limit,
            forall|other: GraphMode|
                #![trigger final(self).nodes_of(other)]
                final(self).nodes_of(other) == (if other == mode {
                    old(self).nodes_of(mode).push(node)
                } else {
                    old(self).nodes_of(other)
                }),
            forall|other: GraphMode|
                #![trigger final(self).edges_of(other)]
                final(self).edges_of(other) == old(self).edges_of(other),
            flush == final(self).full(),
    {
        match mode {
            GraphMode::Anchors => {
                self.anchors.nodes.push(node);
            },
            GraphMode::All => {
                self.all.nodes.push(node);
            },
        }
        self.should_flush()
    }

    /// Adds an edge, and says whether what waits is to be written.
    pub fn push_buffered_edge(&mut self, mode: GraphMode, edge: GraphLayoutEdge) -> (flush: bool)
        requires
            old(self).wf(),
        ensures
            final(self).wf(),
            final(self).limit == old(self).limit,
            forall|other: GraphMode|
                #![trigger final(self).edges_of(other)]
                final(self).edges_of(other) == (if other == mode {
                    old(self).edges_of(mode).push(edge)
                } else {
                    old(self).edges_of(other)
                }),
            forall|other: GraphMode|
                #![trigger final(self).nodes_of(other)]
                final(self).nodes_of(other) == old(self).nodes_of(other),
            flush == final(self).full(),
    {
        match mode {
            GraphMode::Anchors => {
                self.anchors.edges.push(edge);
            },
            GraphMode::All => {
                self.all.edges.push(edge);
            },
        }
        self.should_flush()
    }

    /// Hands out what waits, the anchors first, and leaves nothing. A mode of which nothing waits
    /// is left out.
    pub fn flush_graph_buffer(&mut self) -> (batches: Vec<BufferedModeItems>)
        requires
            old(self).wf(),
        ensures
            final(self).wf(),
            final(self).limit == old(self).limit,
            forall|mode: GraphMode| (#[trigger] final(self).nodes_of(mode)).len() == 0,
            forall|mode: GraphMode| (#[trigger] final(self).edges_of(mode)).len() == 0,
            batches@ == batches_of(*old(self)),
    {
        let mut batches: Vec<BufferedModeItems> = Vec::new();
        let mut anchors = BufferedModeItems::new(GraphMode::Anchors);
        core::mem::swap(&mut anchors, &mut self.anchors);
        let mut all = BufferedModeItems::new(GraphMode::All);
        core::mem::swap(&mut all, &mut self.all);
        if !anchors.is_empty() {
            batches.push(anchors);
        }
        if !all.is_empty() {
            batches.push(all);
        }
        assert(batches@ =~= batches_of(*old(self)));
        batches
    }
}

/// What waits, as it is written.
pub open spec fn batches_of(buffer: GraphBuffer) -> Seq<BufferedModeItems> {
    let anchors = if buffer.anchors.nodes@.len() == 0 && buffer.anchors.edges@.len() == 0 {
        Seq::empty()
    } else {
        seq![buffer.anchors]
    };
    if buffer.all.nodes@.len() == 0 && buffer.all.edges@.len() == 0 {
        anchors
    } else {
        anchors.push(buffer.all)
    }
}

} // verus!
