use vstd::prelude::*;

use vstd::arithmetic::div_mod::lemma_fundamental_div_mod_converse;
use vstd::set_lib::{lemma_int_range, lemma_len_subset, set_int_range};

use crate::automaton::{ArmModel, AutModel, SlotModel};
use crate::model::Model;
use crate::nodes::{Ctrl, Descriptor, Edge, Extlbl, Label, Order, PopRec, SeenEntry, Sym};

verus! {

/// The node lies in the finite node space of an automaton with `lbls`
/// labels over an input of length `n`: the bottom node, or a positioned
/// node whose position is at most `n` and whose label is one of the
/// automaton's.
pub open spec fn node_in_space(u: Extlbl, lbls: nat, n: nat) -> bool {
    match u {
        Extlbl::Dollar => true,
        Extlbl::Positioned(p, l) => p <= n && l < lbls,
    }
}

/// The seen-set record lies in the finite space of (label, node,
/// position) triples.
pub open spec fn entry_in_space(e: SeenEntry, lbls: nat, n: nat) -> bool {
    e.lbl < lbls && e.pos <= n && node_in_space(e.node, lbls, n)
}

/// The descriptor lies in the finite space of (label, node, position)
/// triples.
pub open spec fn desc_in_space(d: Descriptor, lbls: nat, n: nat) -> bool {
    d.lbl < lbls && d.pos <= n && node_in_space(d.node, lbls, n)
}

/// Both endpoints of the edge lie in the node space.
pub open spec fn edge_in_space(e: Edge, lbls: nat, n: nat) -> bool {
    node_in_space(e.src, lbls, n) && node_in_space(e.dst, lbls, n)
}

/// The popped record lies in the finite space of (node, position) pairs.
pub open spec fn rec_in_space(p: PopRec, lbls: nat, n: nat) -> bool {
    p.pos <= n && node_in_space(p.node, lbls, n)
}

impl Model {
    /// The state stays inside the finite space that the automaton's label
    /// count and the input's length span, and the worklist never holds
    /// more descriptors than the seen-set holds records: every enqueued
    /// descriptor was paid for by one seen-set insertion.
    pub open spec fn bounded(self, a: AutModel, n: nat) -> bool {
        &&& self.input.len() == n
        &&& self.idx <= n
        &&& node_in_space(self.u, a.slots.len(), n)
        &&& forall|j: int|
            0 <= j < self.r.len() ==> desc_in_space(#[trigger] self.r[j], a.slots.len(), n)
        &&& forall|j: int|
            0 <= j < self.seen.len() ==> entry_in_space(
                #[trigger] self.seen[j],
                a.slots.len(),
                n,
            )
        &&& forall|j: int|
            0 <= j < self.gss.len() ==> edge_in_space(#[trigger] self.gss[j], a.slots.len(), n)
        &&& forall|j: int|
            0 <= j < self.popped.len() ==> rec_in_space(
                #[trigger] self.popped[j],
                a.slots.len(),
                n,
            )
        &&& self.r.len() <= self.seen.len()
    }

    proof fn lemma_add_bounded(self, a: AutModel, n: nat, lbl: Label, node: Extlbl, pos: usize)
        requires
            self.bounded(a, n),
            lbl < a.slots.len(),
            pos <= n,
            node_in_space(node, a.slots.len(), n),
        ensures
            self.add(lbl, node, pos).bounded(a, n),
        decreases 0int,
    {
        let e = SeenEntry { lbl, node, pos };
        if !self.seen.contains(e) {
            let m = self.add(lbl, node, pos);
            assert forall|j: int| 0 <= j < m.r.len() implies desc_in_space(
                #[trigger] m.r[j],
                a.slots.len(),
                n,
            ) by {
                if j < self.r.len() {
                    assert(m.r[j] == self.r[j]);
                }
            }
            assert forall|j: int| 0 <= j < m.seen.len() implies entry_in_space(
                #[trigger] m.seen[j],
                a.slots.len(),
                n,
            ) by {
                if j < self.seen.len() {
                    assert(m.seen[j] == self.seen[j]);
                }
            }
        }
    }

    proof fn lemma_fan_bounded(
        self,
        a: AutModel,
        n: nat,
        u: Extlbl,
        lbl: Label,
        pos: usize,
        edges: Seq<Edge>,
    )
        requires
            self.bounded(a, n),
            lbl < a.slots.len(),
            pos <= n,
            forall|j: int| 0 <= j < edges.len() ==> edge_in_space(
                #[trigger] edges[j],
                a.slots.len(),
                n,
            ),
        ensures
            self.fan(u, lbl, pos, edges).bounded(a, n),
        decreases edges.len(),
    {
        if edges.len() > 0 {
            let s1 = if edges[0].src == u {
                self.add(lbl, edges[0].dst, pos)
            } else {
                self
            };
            if edges[0].src == u {
                self.lemma_add_bounded(a, n, lbl, edges[0].dst, pos);
            }
            assert forall|j: int| 0 <= j < edges.drop_first().len() implies edge_in_space(
                #[trigger] edges.drop_first()[j],
                a.slots.len(),
                n,
            ) by {
                assert(edges.drop_first()[j] == edges[j + 1]);
            }
            s1.lemma_fan_bounded(a, n, u, lbl, pos, edges.drop_first());
        }
    }

    proof fn lemma_pop_bounded(self, a: AutModel, n: nat, pos: usize)
        requires
            self.bounded(a, n),
            self.u is Positioned,
            pos <= n,
        ensures
            self.pop(pos).bounded(a, n),
    {
        let rec = PopRec { node: self.u, pos };
        let s1 = if self.popped.contains(rec) {
            self
        } else {
            Model { popped: self.popped.push(rec), ..self }
        };
        if !self.popped.contains(rec) {
            assert forall|j: int| 0 <= j < s1.popped.len() implies rec_in_space(
                #[trigger] s1.popped[j],
                a.slots.len(),
                n,
            ) by {
                if j < self.popped.len() {
                    assert(s1.popped[j] == self.popped[j]);
                }
            }
        }
        s1.lemma_fan_bounded(a, n, self.u, self.u.label(), pos, s1.gss);
    }

    proof fn lemma_replay_bounded(
        self,
        a: AutModel,
        n: nat,
        v: Extlbl,
        lbl: Label,
        caller: Extlbl,
        recs: Seq<PopRec>,
    )
        requires
            self.bounded(a, n),
            lbl < a.slots.len(),
            node_in_space(caller, a.slots.len(), n),
            forall|j: int| 0 <= j < recs.len() ==> rec_in_space(
                #[trigger] recs[j],
                a.slots.len(),
                n,
            ),
        ensures
            self.replay(v, lbl, caller, recs).bounded(a, n),
        decreases recs.len(),
    {
        if recs.len() > 0 {
            let s1 = if recs[0].node == v {
                self.add(lbl, caller, recs[0].pos)
            } else {
                self
            };
            if recs[0].node == v {
                self.lemma_add_bounded(a, n, lbl, caller, recs[0].pos);
            }
            assert forall|j: int| 0 <= j < recs.drop_first().len() implies rec_in_space(
                #[trigger] recs.drop_first()[j],
                a.slots.len(),
                n,
            ) by {
                assert(recs.drop_first()[j] == recs[j + 1]);
            }
            s1.lemma_replay_bounded(a, n, v, lbl, caller, recs.drop_first());
        }
    }

    proof fn lemma_create_bounded(self, a: AutModel, n: nat, lbl: Label, pos: usize)
        requires
            self.bounded(a, n),
            lbl < a.slots.len(),
            pos <= n,
        ensures
            self.create(lbl, pos).bounded(a, n),
    {
        let v = Extlbl::Positioned(pos, lbl);
        let e = Edge { src: v, dst: self.u };
        let s1 = if self.gss.contains(e) {
            self
        } else {
            Model { gss: self.gss.push(e), ..self }
        };
        if !self.gss.contains(e) {
            assert forall|j: int| 0 <= j < s1.gss.len() implies edge_in_space(
                #[trigger] s1.gss[j],
                a.slots.len(),
                n,
            ) by {
                if j < self.gss.len() {
                    assert(s1.gss[j] == self.gss[j]);
                }
            }
        }
        s1.lemma_replay_bounded(a, n, v, lbl, self.u, s1.popped);
    }

    proof fn lemma_enq_alts_bounded(self, a: AutModel, n: nat, arms: Seq<ArmModel>, cur: Sym)
        requires
            self.bounded(a, n),
            forall|k: int| 0 <= k < arms.len() ==> (#[trigger] arms[k]).entry < a.slots.len(),
        ensures
            self.enq_alts(arms, cur).bounded(a, n),
        decreases arms.len(),
    {
        if arms.len() > 0 {
            let s1 = if arms[0].trigger.contains(cur) {
                self.add(arms[0].entry, self.u, self.idx)
            } else {
                self
            };
            if arms[0].trigger.contains(cur) {
                self.lemma_add_bounded(a, n, arms[0].entry, self.u, self.idx);
            }
            assert forall|k: int| 0 <= k < arms.drop_first().len() implies (#[trigger] arms.drop_first()[k]).entry
                < a.slots.len() by {
                assert(arms.drop_first()[k] == arms[k + 1]);
            }
            s1.lemma_enq_alts_bounded(a, n, arms.drop_first(), cur);
        }
    }

    /// One driver step keeps the state inside the finite space and keeps
    /// the worklist no longer than the seen-set.
    pub proof fn lemma_step_bounded(self, a: AutModel, n: nat)
        requires
            a.wf(),
            self.wf(a),
            self.bounded(a, n),
        ensures
            self.step(a).bounded(a, n),
    {
        match self.pc {
            Ctrl::Dispatch => {
                if self.r.len() > 0 {
                    let d = if self.order is Fifo {
                        self.r[0]
                    } else {
                        self.r.last()
                    };
                    let r2 = if self.order is Fifo {
                        self.r.drop_first()
                    } else {
                        self.r.drop_last()
                    };
                    assert(desc_in_space(d, a.slots.len(), n));
                    assert forall|j: int| 0 <= j < r2.len() implies desc_in_space(
                        #[trigger] r2[j],
                        a.slots.len(),
                        n,
                    ) by {
                        if self.order is Fifo {
                            assert(r2[j] == self.r[j + 1]);
                        } else {
                            assert(r2[j] == self.r[j]);
                        }
                    }
                }
            }
            Ctrl::At(l) => {
                assert(a.slots[l as int].wf(a.slots.len() as int));
                match a.slots[l as int] {
                    SlotModel::Terminal(syms) => {
                        if syms.contains(self.cur_sym()) && self.u is Positioned {
                            let j = if self.idx < self.input.len() {
                                (self.idx + 1) as usize
                            } else {
                                self.idx
                            };
                            self.lemma_pop_bounded(a, n, j);
                        }
                    }
                    SlotModel::Call { callee, ret } => {
                        self.lemma_create_bounded(a, n, ret, self.idx);
                    }
                    SlotModel::Alt(arms) => {
                        self.lemma_enq_alts_bounded(a, n, arms, self.cur_sym());
                    }
                    SlotModel::Return => {
                        if self.u is Positioned {
                            self.lemma_pop_bounded(a, n, self.idx);
                        }
                    }
                }
            }
        }
    }
}

/// Termination bound, structural part: a fresh run starts inside the
/// finite space of (label, node, position) triples that the automaton's
/// label count and the input's length span, and stays there forever,
/// with the worklist never longer than the duplicate-free seen-set. So
/// the total work is governed by the size of that space, independent of
/// the grammar's ambiguity degree.
pub proof fn lemma_run_bounded(a: AutModel, input: Seq<char>, order: Order, k: nat)
    requires
        a.wf(),
    ensures
        Model::run_to(a, Model::init(a, input, order), k).bounded(a, input.len()),
        Model::run_to(a, Model::init(a, input, order), k).wf(a),
    decreases k,
{
    if k == 0 {
        let m0 = Model::init(a, input, order);
        assert(m0.gss[0] == (Edge {
            src: Extlbl::Positioned(0, a.accept),
            dst: Extlbl::Dollar,
        }));
    } else {
        let prev = Model::run_to(a, Model::init(a, input, order), (k - 1) as nat);
        lemma_run_bounded(a, input, order, (k - 1) as nat);
        prev.lemma_step_bounded(a, input.len());
        prev.lemma_step_wf(a);
    }
}

/// One integer per context node, injective over the node space: 0 for the
/// bottom node, then position-major over the positioned nodes.
pub open spec fn node_code(u: Extlbl, lbls: nat) -> int {
    match u {
        Extlbl::Dollar => 0,
        Extlbl::Positioned(p, l) => 1 + p * lbls + l,
    }
}

/// One integer per seen-set record, injective over the record space: the
/// label in the lowest digits, then the position, then the node.
pub open spec fn entry_code(e: SeenEntry, lbls: nat, n: nat) -> int {
    e.lbl + lbls * (e.pos + (n + 1) * node_code(e.node, lbls))
}

/// The size of the record space: labels, times positions, times context
/// nodes (positioned ones and the bottom node).
pub open spec fn space_size(lbls: nat, n: nat) -> int {
    (lbls * ((n + 1) * (1 + (n + 1) * lbls))) as int
}

proof fn lemma_node_code_range(u: Extlbl, lbls: nat, n: nat)
    requires
        node_in_space(u, lbls, n),
        lbls > 0,
    ensures
        0 <= node_code(u, lbls) <= (n + 1) * lbls,
{
    match u {
        Extlbl::Dollar => {
            assert((n + 1) * lbls >= 0) by (nonlinear_arith)
                requires lbls >= 0, n >= 0;
        }
        Extlbl::Positioned(p, l) => {
            assert(0 <= 1 + p * (lbls as int) + l <= (n + 1) * lbls) by (nonlinear_arith)
                requires 0 <= p <= n, 0 <= l < lbls;
        }
    }
}

proof fn lemma_entry_code_range(e: SeenEntry, lbls: nat, n: nat)
    requires
        entry_in_space(e, lbls, n),
        lbls > 0,
    ensures
        0 <= entry_code(e, lbls, n) < space_size(lbls, n),
{
    let nc = node_code(e.node, lbls);
    lemma_node_code_range(e.node, lbls, n);
    let x = e.pos + (n + 1) * nc;
    assert(0 <= x < (n + 1) * (1 + (n + 1) * lbls)) by (nonlinear_arith)
        requires
            x == e.pos + (n + 1) * nc,
            0 <= e.pos <= n,
            0 <= nc <= (n + 1) * (lbls as int),
    ;
    assert(0 <= e.lbl + lbls * x < lbls * ((n + 1) * (1 + (n + 1) * lbls))) by (nonlinear_arith)
        requires
            0 <= e.lbl < lbls,
            0 <= x < (n + 1) * (1 + (n + 1) * (lbls as int)),
    ;
}

proof fn lemma_entry_code_injective(e1: SeenEntry, e2: SeenEntry, lbls: nat, n: nat)
    requires
        entry_in_space(e1, lbls, n),
        entry_in_space(e2, lbls, n),
        lbls > 0,
        entry_code(e1, lbls, n) == entry_code(e2, lbls, n),
    ensures
        e1 == e2,
{
    let lb = lbls as int;
    let nn = n as int;
    let nc1 = node_code(e1.node, lbls);
    let nc2 = node_code(e2.node, lbls);
    lemma_node_code_range(e1.node, lbls, n);
    lemma_node_code_range(e2.node, lbls, n);
    let x1 = e1.pos + (nn + 1) * nc1;
    let x2 = e2.pos + (nn + 1) * nc2;
    let c = entry_code(e1, lbls, n);
    assert(c == x1 * lb + e1.lbl) by (nonlinear_arith)
        requires c == e1.lbl + lb * x1;
    assert(c == x2 * lb + e2.lbl) by (nonlinear_arith)
        requires c == e2.lbl + lb * x2;
    assert(0 <= x1) by (nonlinear_arith)
        requires x1 == e1.pos + (nn + 1) * nc1, e1.pos >= 0, nc1 >= 0, nn >= 0;
    assert(0 <= x2) by (nonlinear_arith)
        requires x2 == e2.pos + (nn + 1) * nc2, e2.pos >= 0, nc2 >= 0, nn >= 0;
    lemma_fundamental_div_mod_converse(c, lb, x1, e1.lbl as int);
    lemma_fundamental_div_mod_converse(c, lb, x2, e2.lbl as int);
    assert(e1.lbl == e2.lbl);
    assert(x1 == x2);
    assert(x1 == nc1 * (nn + 1) + e1.pos) by (nonlinear_arith)
        requires x1 == e1.pos + (nn + 1) * nc1;
    assert(x1 == nc2 * (nn + 1) + e2.pos) by (nonlinear_arith)
        requires x1 == x2, x2 == e2.pos + (nn + 1) * nc2;
    lemma_fundamental_div_mod_converse(x1, nn + 1, nc1, e1.pos as int);
    lemma_fundamental_div_mod_converse(x1, nn + 1, nc2, e2.pos as int);
    assert(e1.pos == e2.pos);
    assert(nc1 == nc2);
    match e1.node {
        Extlbl::Dollar => {
            match e2.node {
                Extlbl::Dollar => {}
                Extlbl::Positioned(p2, l2) => {
                    assert(p2 * lb >= 0) by (nonlinear_arith)
                        requires p2 >= 0, lb > 0;
                }
            }
        }
        Extlbl::Positioned(p1, l1) => {
            match e2.node {
                Extlbl::Dollar => {
                    assert(p1 * lb >= 0) by (nonlinear_arith)
                        requires p1 >= 0, lb > 0;
                }
                Extlbl::Positioned(p2, l2) => {
                    assert(p1 * lb + l1 == p2 * lb + l2);
                    lemma_fundamental_div_mod_converse(p1 * lb + l1, lb, p1 as int, l1 as int);
                    lemma_fundamental_div_mod_converse(p1 * lb + l1, lb, p2 as int, l2 as int);
                    assert(p1 == p2 && l1 == l2);
                }
            }
        }
    }
}

/// A duplicate-free collection of records drawn from the finite record
/// space cannot outgrow that space.
pub proof fn lemma_seen_within_space(seen: Seq<SeenEntry>, lbls: nat, n: nat)
    requires
        seen.no_duplicates(),
        lbls > 0,
        forall|j: int| 0 <= j < seen.len() ==> entry_in_space(#[trigger] seen[j], lbls, n),
    ensures
        seen.len() <= space_size(lbls, n),
{
    let codes = Seq::new(seen.len(), |i: int| entry_code(seen[i], lbls, n));
    assert forall|i: int, j: int|
        0 <= i < codes.len() && 0 <= j < codes.len() && i != j implies codes[i] != codes[j] by {
        if codes[i] == codes[j] {
            lemma_entry_code_injective(seen[i], seen[j], lbls, n);
        }
    }
    codes.unique_seq_to_set();
    assert forall|x: int| codes.to_set().contains(x) implies set_int_range(
        0,
        space_size(lbls, n),
    ).contains(x) by {
        let i = choose|i: int| 0 <= i < codes.len() && codes[i] == x;
        lemma_entry_code_range(seen[i], lbls, n);
    }
    lemma_int_range(0, space_size(lbls, n));
    lemma_len_subset(codes.to_set(), set_int_range(0, space_size(lbls, n)));
}

/// Termination bound: at every point of a run, the seen-set holds at most
/// |Label| × (|input|+1) × (|Label| × (|input|+1) + 1) records — labels,
/// times positions, times context nodes — and the worklist holds at most
/// that many descriptors, whatever the grammar's ambiguity degree. Every
/// descriptor the worklist ever receives is paid for by one seen-set
/// insertion, so the total work of a run is finite.
pub proof fn lemma_run_work_bounded(a: AutModel, input: Seq<char>, order: Order, k: nat)
    requires
        a.wf(),
    ensures
        Model::run_to(a, Model::init(a, input, order), k).seen.len() <= space_size(
            a.slots.len(),
            input.len(),
        ),
        Model::run_to(a, Model::init(a, input, order), k).r.len() <= space_size(
            a.slots.len(),
            input.len(),
        ),
{
    lemma_run_bounded(a, input, order, k);
    let m = Model::run_to(a, Model::init(a, input, order), k);
    lemma_seen_within_space(m.seen, a.slots.len(), input.len());
}

} // verus!
