use vstd::prelude::*;

use crate::nodes::{Descriptor, Edge, Extlbl, Label, Sym};

verus! {

/// One alternative of an alternation slot: when the current symbol lies in
/// the trigger set, a descriptor for the entry label is enqueued.
pub struct Arm {
    pub trigger: Vec<Sym>,
    pub entry: Label,
}

/// The action a label stands for.
pub enum Slot {
    /// Match one symbol of the set (the end sentinel consumes nothing) and
    /// reduce at the position past the match.
    Terminal(Vec<Sym>),
    /// Push a return context for `ret` and continue at the callee's entry.
    Call { callee: Label, ret: Label },
    /// Enqueue every alternative whose trigger holds the current symbol.
    Alt(Vec<Arm>),
    /// The rule body is complete: reduce at the current position.
    Return,
}

/// A compiled slot automaton: one slot per label, the entry label of the
/// start nonterminal, and the acceptance label that the outermost call
/// returns to. Supplied by a grammar compiler; the engine only reads it.
pub struct Automaton {
    pub slots: Vec<Slot>,
    pub start: Label,
    pub accept: Label,
}

/// Mathematical image of an `Arm`.
#[verifier::ext_equal]
pub struct ArmModel {
    pub trigger: Seq<Sym>,
    pub entry: Label,
}

/// Mathematical image of a `Slot`.
#[verifier::ext_equal]
pub enum SlotModel {
    Terminal(Seq<Sym>),
    Call { callee: Label, ret: Label },
    Alt(Seq<ArmModel>),
    Return,
}

/// Mathematical image of an `Automaton`.
#[verifier::ext_equal]
pub struct AutModel {
    pub slots: Seq<SlotModel>,
    pub start: Label,
    pub accept: Label,
}

impl View for Arm {
    type V = ArmModel;

    open spec fn view(&self) -> ArmModel {
        ArmModel { trigger: self.trigger@, entry: self.entry }
    }
}

impl View for Slot {
    type V = SlotModel;

    open spec fn view(&self) -> SlotModel {
        match self {
            Slot::Terminal(syms) => SlotModel::Terminal(syms@),
            Slot::Call { callee, ret } => SlotModel::Call { callee: *callee, ret: *ret },
            Slot::Alt(arms) => SlotModel::Alt(arms@.map_values(|a: Arm| a@)),
            Slot::Return => SlotModel::Return,
        }
    }
}

impl View for Automaton {
    type V = AutModel;

    open spec fn view(&self) -> AutModel {
        AutModel {
            slots: self.slots@.map_values(|s: Slot| s@),
            start: self.start,
            accept: self.accept,
        }
    }
}

impl SlotModel {
    /// Every label this slot mentions indexes a table of `n` slots.
    pub open spec fn wf(self, n: int) -> bool {
        match self {
            SlotModel::Terminal(_) => true,
            SlotModel::Call { callee, ret } => callee < n && ret < n,
            SlotModel::Alt(arms) => forall|k: int|
                0 <= k < arms.len() ==> (#[trigger] arms[k]).entry < n,
            SlotModel::Return => true,
        }
    }
}

impl AutModel {
    /// The label indexes this automaton's slot table.
    pub open spec fn lbl_ok(self, l: Label) -> bool {
        l < self.slots.len()
    }

    /// Every label the automaton mentions, its start and acceptance labels
    /// included, indexes its slot table. A violation is a fault of the
    /// grammar compiler; the engine requires this up front.
    pub open spec fn wf(self) -> bool {
        &&& self.lbl_ok(self.start)
        &&& self.lbl_ok(self.accept)
        &&& forall|j: int|
            0 <= j < self.slots.len() ==> (#[trigger] self.slots[j]).wf(self.slots.len() as int)
    }

    /// A positioned node's label indexes the slot table.
    pub open spec fn node_ok(self, u: Extlbl) -> bool {
        u is Positioned ==> self.lbl_ok(u.label())
    }

    /// Both components of a descriptor carry labels of this automaton.
    pub open spec fn desc_ok(self, d: Descriptor) -> bool {
        self.lbl_ok(d.lbl) && self.node_ok(d.node)
    }

    /// Both endpoints of a GSS edge carry labels of this automaton.
    pub open spec fn edge_ok(self, e: Edge) -> bool {
        self.node_ok(e.src) && self.node_ok(e.dst)
    }
}

} // verus!
