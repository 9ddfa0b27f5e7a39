use vstd::prelude::*;

use crate::automaton::{ArmModel, AutModel, SlotModel};
use crate::nodes::{Ctrl, Descriptor, Edge, Extlbl, Label, Order, PopRec, SeenEntry, Sym};

verus! {

/// The mathematical state of one engine run: the current label or the
/// dispatch point, the current input position and context node, the
/// descriptor worklist, the seen-set, the GSS edge set and the
/// pop-memoization set, the worklist order and the immutable input.
///
/// The seen-set, the edge set and the popped-set are kept as duplicate-free
/// sequences, so their sequence order carries no meaning beyond the order
/// of discovery; `wf` pins the duplicate-freeness.
#[verifier::ext_equal]
pub struct Model {
    pub pc: Ctrl,
    pub idx: usize,
    pub u: Extlbl,
    pub r: Seq<Descriptor>,
    pub seen: Seq<SeenEntry>,
    pub gss: Seq<Edge>,
    pub popped: Seq<PopRec>,
    pub order: Order,
    pub input: Seq<char>,
}

impl Model {
    /// Worklist scheduling: if (lbl, node) is already seen at pos, nothing
    /// happens; otherwise the pair is recorded and exactly one descriptor
    /// is appended to the worklist. Idempotent by construction.
    pub open spec fn add(self, lbl: Label, node: Extlbl, pos: usize) -> Model {
        let e = SeenEntry { lbl, node, pos };
        if self.seen.contains(e) {
            self
        } else {
            Model {
                seen: self.seen.push(e),
                r: self.r.push(Descriptor { lbl, node, pos }),
                ..self
            }
        }
    }

    /// Fan a completed reduction out: for each edge of `edges` leaving `u`,
    /// schedule its target as resumed at `pos` under `lbl`, left to right.
    pub open spec fn fan(self, u: Extlbl, lbl: Label, pos: usize, edges: Seq<Edge>) -> Model
        decreases edges.len(),
    {
        if edges.len() == 0 {
            self
        } else {
            let s1 = if edges[0].src == u {
                self.add(lbl, edges[0].dst, pos)
            } else {
                self
            };
            s1.fan(u, lbl, pos, edges.drop_first())
        }
    }

    /// Reduction at `pos`: record that the current context node completed
    /// here, then resume every caller the GSS knows. Meaningful only while
    /// the current node is positioned; the bottom node never reduces.
    pub open spec fn pop(self, pos: usize) -> Model {
        let rec = PopRec { node: self.u, pos };
        let s1 = if self.popped.contains(rec) {
            self
        } else {
            Model { popped: self.popped.push(rec), ..self }
        };
        s1.fan(self.u, self.u.label(), pos, s1.gss)
    }

    /// Replay memoized reductions of node `v` for a caller, left to right
    /// over the popped records.
    pub open spec fn replay(self, v: Extlbl, lbl: Label, caller: Extlbl, recs: Seq<PopRec>) -> Model
        decreases recs.len(),
    {
        if recs.len() == 0 {
            self
        } else {
            let s1 = if recs[0].node == v {
                self.add(lbl, caller, recs[0].pos)
            } else {
                self
            };
            s1.replay(v, lbl, caller, recs.drop_first())
        }
    }

    /// GSS create: reuse or mint the node v = (lbl, pos), record the
    /// current node as one of its callers, replay every reduction v has
    /// already completed for that caller, and move into v.
    pub open spec fn create(self, lbl: Label, pos: usize) -> Model {
        let v = Extlbl::Positioned(pos, lbl);
        let e = Edge { src: v, dst: self.u };
        let s1 = if self.gss.contains(e) {
            self
        } else {
            Model { gss: self.gss.push(e), ..self }
        };
        let s2 = s1.replay(v, lbl, self.u, s1.popped);
        Model { u: v, ..s2 }
    }

    /// The symbol under the cursor, or the end sentinel past the input.
    pub open spec fn cur_sym(self) -> Sym {
        if self.idx < self.input.len() {
            Sym::Char(self.input[self.idx as int])
        } else {
            Sym::End
        }
    }

    /// Alternation: schedule, left to right, one descriptor per
    /// alternative whose trigger holds `cur`, each through the memoized
    /// `add` — the deduplication is what keeps cyclic grammars finite.
    pub open spec fn enq_alts(self, arms: Seq<ArmModel>, cur: Sym) -> Model
        decreases arms.len(),
    {
        if arms.len() == 0 {
            self
        } else {
            let s1 = if arms[0].trigger.contains(cur) {
                self.add(arms[0].entry, self.u, self.idx)
            } else {
                self
            };
            s1.enq_alts(arms.drop_first(), cur)
        }
    }

    /// The run is complete: control sits at dispatch with an empty worklist.
    pub open spec fn done(self) -> bool {
        self.pc is Dispatch && self.r.len() == 0
    }

    /// The seen-set record whose presence at the end of the input means
    /// acceptance: the acceptance label, returned to the bottom node.
    pub open spec fn accept_entry(self, a: AutModel) -> SeenEntry {
        SeenEntry { lbl: a.accept, node: Extlbl::Dollar, pos: self.input.len() as usize }
    }

    /// Whether the input is accepted, read off the seen-set.
    pub open spec fn accepted(self, a: AutModel) -> bool {
        self.seen.contains(self.accept_entry(a))
    }

    /// One step of the driver. A completed run is a fixed point. At
    /// dispatch, the next descriptor is adopted from the front or the back
    /// of the worklist, by the configured order. At a label, the slot's
    /// action runs: a terminal match or a completed rule reduces and falls
    /// through to dispatch (the bottom node never reduces), a call pushes a
    /// return context and continues at the callee, an alternation enqueues
    /// its triggered alternatives and falls through to dispatch.
    pub open spec fn step(self, a: AutModel) -> Model {
        match self.pc {
            Ctrl::Dispatch => {
                if self.r.len() == 0 {
                    self
                } else {
                    let d = if self.order is Fifo {
                        self.r[0]
                    } else {
                        self.r.last()
                    };
                    let r2 = if self.order is Fifo {
                        self.r.drop_first()
                    } else {
                        self.r.drop_last()
                    };
                    Model { pc: Ctrl::At(d.lbl), u: d.node, idx: d.pos, r: r2, ..self }
                }
            }
            Ctrl::At(l) => {
                match a.slots[l as int] {
                    SlotModel::Terminal(syms) => {
                        let s2 = if syms.contains(self.cur_sym()) && self.u is Positioned {
                            let j = if self.idx < self.input.len() {
                                (self.idx + 1) as usize
                            } else {
                                self.idx
                            };
                            self.pop(j)
                        } else {
                            self
                        };
                        Model { pc: Ctrl::Dispatch, ..s2 }
                    }
                    SlotModel::Call { callee, ret } => {
                        let s2 = self.create(ret, self.idx);
                        Model { pc: Ctrl::At(callee), ..s2 }
                    }
                    SlotModel::Alt(arms) => {
                        Model { pc: Ctrl::Dispatch, ..self.enq_alts(arms, self.cur_sym()) }
                    }
                    SlotModel::Return => {
                        let s2 = if self.u is Positioned {
                            self.pop(self.idx)
                        } else {
                            self
                        };
                        Model { pc: Ctrl::Dispatch, ..s2 }
                    }
                }
            }
        }
    }

    /// The state a fresh run starts from: control at the start label at
    /// position 0, in the initial node (the acceptance label at position 0),
    /// which the GSS already wires to the bottom node.
    pub open spec fn init(a: AutModel, input: Seq<char>, order: Order) -> Model {
        let u1 = Extlbl::Positioned(0, a.accept);
        Model {
            pc: Ctrl::At(a.start),
            idx: 0,
            u: u1,
            r: Seq::empty(),
            seen: Seq::empty(),
            gss: Seq::empty().push(Edge { src: u1, dst: Extlbl::Dollar }),
            popped: Seq::empty(),
            order,
            input,
        }
    }

    /// The state after n driver steps.
    pub open spec fn run_to(a: AutModel, m0: Model, n: nat) -> Model
        decreases n,
    {
        if n == 0 {
            m0
        } else {
            Self::run_to(a, m0, (n - 1) as nat).step(a)
        }
    }

    /// The verdict of a run given at most `fuel` further steps: the
    /// acceptance bit once the worklist empties, None while work remains.
    pub open spec fn verdict_within(a: AutModel, m: Model, fuel: nat) -> Option<bool>
        decreases fuel,
    {
        if m.done() {
            Some(m.accepted(a))
        } else if fuel == 0 {
            None
        } else {
            Self::verdict_within(a, m.step(a), (fuel - 1) as nat)
        }
    }

    /// Structural soundness of a state against its automaton: every label
    /// held anywhere indexes the slot table, and the three monotone stores
    /// hold no duplicates.
    pub open spec fn wf(self, a: AutModel) -> bool {
        &&& match self.pc {
            Ctrl::At(l) => a.lbl_ok(l),
            Ctrl::Dispatch => true,
        }
        &&& a.node_ok(self.u)
        &&& forall|j: int| 0 <= j < self.r.len() ==> a.desc_ok(#[trigger] self.r[j])
        &&& forall|j: int| 0 <= j < self.gss.len() ==> a.edge_ok(#[trigger] self.gss[j])
        &&& self.seen.no_duplicates()
        &&& self.gss.no_duplicates()
        &&& self.popped.no_duplicates()
    }
}

/// A duplicate-free sequence stays duplicate-free when an absent element
/// is appended.
pub proof fn lemma_push_no_dup<T>(s: Seq<T>, e: T)
    requires
        s.no_duplicates(),
        !s.contains(e),
    ensures
        s.push(e).no_duplicates(),
{
    let t = s.push(e);
    assert forall|i: int, j: int| 0 <= i < t.len() && 0 <= j < t.len() && i != j implies t[i]
        != t[j] by {
        if i < s.len() && j < s.len() {
        } else if i < s.len() {
            assert(t[j] == e);
            assert(t[i] == s[i]);
        } else {
            assert(t[i] == e);
            assert(t[j] == s[j]);
        }
    }
}

impl Model {
    /// Scheduling preserves structural soundness.
    pub proof fn lemma_add_wf(self, a: AutModel, lbl: Label, node: Extlbl, pos: usize)
        requires
            self.wf(a),
            a.lbl_ok(lbl),
            a.node_ok(node),
        ensures
            self.add(lbl, node, pos).wf(a),
    {
        let e = SeenEntry { lbl, node, pos };
        if !self.seen.contains(e) {
            lemma_push_no_dup(self.seen, e);
            let m = self.add(lbl, node, pos);
            assert forall|j: int| 0 <= j < m.r.len() implies a.desc_ok(#[trigger] m.r[j]) by {
                if j < self.r.len() {
                    assert(m.r[j] == self.r[j]);
                }
            }
        }
    }

    /// Fanning a reduction out preserves structural soundness, and touches
    /// neither the GSS, the popped-set, nor the control fields.
    pub proof fn lemma_fan_wf(self, a: AutModel, u: Extlbl, lbl: Label, pos: usize, edges: Seq<Edge>)
        requires
            self.wf(a),
            a.lbl_ok(lbl),
            forall|j: int| 0 <= j < edges.len() ==> a.edge_ok(#[trigger] edges[j]),
        ensures
            self.fan(u, lbl, pos, edges).wf(a),
            self.fan(u, lbl, pos, edges).gss == self.gss,
            self.fan(u, lbl, pos, edges).popped == self.popped,
            self.fan(u, lbl, pos, edges).pc == self.pc,
            self.fan(u, lbl, pos, edges).u == self.u,
            self.fan(u, lbl, pos, edges).idx == self.idx,
            self.fan(u, lbl, pos, edges).order == self.order,
            self.fan(u, lbl, pos, edges).input == self.input,
        decreases edges.len(),
    {
        if edges.len() > 0 {
            let s1 = if edges[0].src == u {
                self.add(lbl, edges[0].dst, pos)
            } else {
                self
            };
            if edges[0].src == u {
                self.lemma_add_wf(a, lbl, edges[0].dst, pos);
            }
            assert forall|j: int| 0 <= j < edges.drop_first().len() implies a.edge_ok(
                #[trigger] edges.drop_first()[j],
            ) by {
                assert(edges.drop_first()[j] == edges[j + 1]);
            }
            s1.lemma_fan_wf(a, u, lbl, pos, edges.drop_first());
        }
    }

    /// A reduction preserves structural soundness.
    pub proof fn lemma_pop_wf(self, a: AutModel, pos: usize)
        requires
            self.wf(a),
            self.u is Positioned,
        ensures
            self.pop(pos).wf(a),
            self.pop(pos).gss == self.gss,
            self.pop(pos).pc == self.pc,
            self.pop(pos).u == self.u,
            self.pop(pos).idx == self.idx,
            self.pop(pos).order == self.order,
            self.pop(pos).input == self.input,
    {
        let rec = PopRec { node: self.u, pos };
        let s1 = if self.popped.contains(rec) {
            self
        } else {
            Model { popped: self.popped.push(rec), ..self }
        };
        if !self.popped.contains(rec) {
            lemma_push_no_dup(self.popped, rec);
        }
        s1.lemma_fan_wf(a, self.u, self.u.label(), pos, s1.gss);
    }

    /// Replaying memoized reductions preserves structural soundness.
    pub proof fn lemma_replay_wf(
        self,
        a: AutModel,
        v: Extlbl,
        lbl: Label,
        caller: Extlbl,
        recs: Seq<PopRec>,
    )
        requires
            self.wf(a),
            a.lbl_ok(lbl),
            a.node_ok(caller),
        ensures
            self.replay(v, lbl, caller, recs).wf(a),
            self.replay(v, lbl, caller, recs).gss == self.gss,
            self.replay(v, lbl, caller, recs).popped == self.popped,
            self.replay(v, lbl, caller, recs).pc == self.pc,
            self.replay(v, lbl, caller, recs).u == self.u,
            self.replay(v, lbl, caller, recs).idx == self.idx,
            self.replay(v, lbl, caller, recs).order == self.order,
            self.replay(v, lbl, caller, recs).input == self.input,
        decreases recs.len(),
    {
        if recs.len() > 0 {
            let s1 = if recs[0].node == v {
                self.add(lbl, caller, recs[0].pos)
            } else {
                self
            };
            if recs[0].node == v {
                self.lemma_add_wf(a, lbl, caller, recs[0].pos);
            }
            s1.lemma_replay_wf(a, v, lbl, caller, recs.drop_first());
        }
    }

    /// A GSS create preserves structural soundness.
    pub proof fn lemma_create_wf(self, a: AutModel, lbl: Label, pos: usize)
        requires
            self.wf(a),
            a.lbl_ok(lbl),
        ensures
            self.create(lbl, pos).wf(a),
            self.create(lbl, pos).popped == self.popped,
            self.create(lbl, pos).idx == self.idx,
            self.create(lbl, pos).pc == self.pc,
            self.create(lbl, pos).order == self.order,
            self.create(lbl, pos).input == self.input,
    {
        let v = Extlbl::Positioned(pos, lbl);
        let e = Edge { src: v, dst: self.u };
        let s1 = if self.gss.contains(e) {
            self
        } else {
            Model { gss: self.gss.push(e), ..self }
        };
        if !self.gss.contains(e) {
            lemma_push_no_dup(self.gss, e);
            assert forall|j: int| 0 <= j < s1.gss.len() implies a.edge_ok(
                #[trigger] s1.gss[j],
            ) by {
                if j < self.gss.len() {
                    assert(s1.gss[j] == self.gss[j]);
                }
            }
        }
        s1.lemma_replay_wf(a, v, lbl, self.u, s1.popped);
    }

    /// Enqueuing triggered alternatives preserves structural soundness.
    pub proof fn lemma_enq_alts_wf(self, a: AutModel, arms: Seq<ArmModel>, cur: Sym)
        requires
            self.wf(a),
            forall|k: int| 0 <= k < arms.len() ==> (#[trigger] arms[k]).entry < a.slots.len(),
        ensures
            self.enq_alts(arms, cur).wf(a),
        decreases arms.len(),
    {
        if arms.len() > 0 {
            let s1 = if arms[0].trigger.contains(cur) {
                self.add(arms[0].entry, self.u, self.idx)
            } else {
                self
            };
            if arms[0].trigger.contains(cur) {
                self.lemma_add_wf(a, arms[0].entry, self.u, self.idx);
            }
            assert forall|k: int| 0 <= k < arms.drop_first().len() implies (#[trigger] arms.drop_first()[k]).entry
                < a.slots.len() by {
                assert(arms.drop_first()[k] == arms[k + 1]);
            }
            s1.lemma_enq_alts_wf(a, arms.drop_first(), cur);
        }
    }

    /// One driver step preserves structural soundness.
    pub proof fn lemma_step_wf(self, a: AutModel)
        requires
            a.wf(),
            self.wf(a),
        ensures
            self.step(a).wf(a),
    {
        match self.pc {
            Ctrl::Dispatch => {
                if self.r.len() > 0 {
                    let d = if self.order is Fifo {
                        self.r[0]
                    } else {
                        self.r.last()
                    };
                    let r2 = if self.order is Fifo {
                        self.r.drop_first()
                    } else {
                        self.r.drop_last()
                    };
                    assert(a.desc_ok(d));
                    assert forall|j: int| 0 <= j < r2.len() implies a.desc_ok(
                        #[trigger] r2[j],
                    ) by {
                        if self.order is Fifo {
                            assert(r2[j] == self.r[j + 1]);
                        } else {
                            assert(r2[j] == self.r[j]);
                        }
                    }
                }
            }
            Ctrl::At(l) => {
                assert(a.slots[l as int].wf(a.slots.len() as int));
                match a.slots[l as int] {
                    SlotModel::Terminal(syms) => {
                        if syms.contains(self.cur_sym()) && self.u is Positioned {
                            let j = if self.idx < self.input.len() {
                                (self.idx + 1) as usize
                            } else {
                                self.idx
                            };
                            self.lemma_pop_wf(a, j);
                        }
                    }
                    SlotModel::Call { callee, ret } => {
                        self.lemma_create_wf(a, ret, self.idx);
                    }
                    SlotModel::Alt(arms) => {
                        self.lemma_enq_alts_wf(a, arms, self.cur_sym());
                    }
                    SlotModel::Return => {
                        if self.u is Positioned {
                            self.lemma_pop_wf(a, self.idx);
                        }
                    }
                }
            }
        }
    }
}

} // verus!
