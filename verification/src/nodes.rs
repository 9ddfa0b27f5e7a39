use vstd::prelude::*;

verus! {

/// A grammar slot, identified by its index into the automaton's slot table.
pub type Label = usize;

/// One symbol as the engine sees it: a character of the input, or the
/// distinguished end-of-input sentinel.
#[derive(Clone, Copy, Debug, PartialEq, Eq, Structural)]
pub enum Sym {
    Char(char),
    End,
}

/// A context node of the graph-structured stack: either "return to this
/// label, at this input position", or the distinguished bottom node that
/// stands for the outermost caller and never reduces.
#[derive(Clone, Copy, Debug, PartialEq, Eq, Structural)]
pub enum Extlbl {
    Positioned(usize, Label),
    Dollar,
}

impl Extlbl {
    /// The label component of a positioned node. The bottom node carries no
    /// label; callers must rule it out.
    pub fn to_label(&self) -> (r: Label)
        requires
            self is Positioned,
        ensures
            r == self.label(),
    {
        match self {
            Extlbl::Positioned(_, lbl) => *lbl,
            Extlbl::Dollar => 0,
        }
    }

    /// The label a positioned node returns to; immaterial for the bottom
    /// node, which the engine never asks.
    pub open spec fn label(self) -> Label {
        match self {
            Extlbl::Positioned(_, lbl) => lbl,
            Extlbl::Dollar => 0,
        }
    }
}

/// A pending unit of work: resume interpretation at this label, with this
/// calling context, at this input position.
#[derive(Clone, Copy, Debug, PartialEq, Eq, Structural)]
pub struct Descriptor {
    pub lbl: Label,
    pub node: Extlbl,
    pub pos: usize,
}

/// One record of the seen-set: the pair (label, node) has already been
/// scheduled at this position.
#[derive(Clone, Copy, Debug, PartialEq, Eq, Structural)]
pub struct SeenEntry {
    pub lbl: Label,
    pub node: Extlbl,
    pub pos: usize,
}

/// A directed edge of the graph-structured stack: the source node was
/// created while control sat in the target node, so the target is one of
/// the source's callers.
#[derive(Clone, Copy, Debug, PartialEq, Eq, Structural)]
pub struct Edge {
    pub src: Extlbl,
    pub dst: Extlbl,
}

/// One record of the pop-memoization set: this node has completed a
/// reduction at this input position.
#[derive(Clone, Copy, Debug, PartialEq, Eq, Structural)]
pub struct PopRec {
    pub node: Extlbl,
    pub pos: usize,
}

/// Where control sits: interpreting a slot, or fetching the next
/// descriptor off the worklist.
#[derive(Clone, Copy, Debug, PartialEq, Eq, Structural)]
pub enum Ctrl {
    At(Label),
    Dispatch,
}

/// The order in which the worklist hands descriptors out. Either order
/// explores the same state space; only the discovery order differs.
#[derive(Clone, Copy, Debug, PartialEq, Eq, Structural)]
pub enum Order {
    Fifo,
    Lifo,
}

/// What one driver step reports: the run is over with acceptance, over
/// with rejection, or still has work queued.
#[derive(Clone, Copy, Debug, PartialEq, Eq, Structural)]
pub enum Status {
    Success,
    Failure,
    Continue,
}

} // verus!
