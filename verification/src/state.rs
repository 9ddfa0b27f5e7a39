use vstd::prelude::*;

use crate::automaton::{Automaton, Slot};
use crate::model::Model;
use crate::nodes::{Ctrl, Descriptor, Edge, Extlbl, Label, Order, PopRec, SeenEntry, Status, Sym};

verus! {

/// The running state of one recognition: the interpreter's control point,
/// input position and context node, the descriptor worklist, the seen-set,
/// the graph-structured stack and the pop-memoization set, and the input.
/// Its mathematical image is a `Model`, and every operation is proved
/// equal to the model's transition of the same name.
pub struct State {
    pub pc: Ctrl,
    pub idx: usize,
    pub u: Extlbl,
    pub r: Vec<Descriptor>,
    pub seen: Vec<SeenEntry>,
    pub gss: Vec<Edge>,
    pub popped: Vec<PopRec>,
    pub order: Order,
    pub input: Vec<char>,
}

impl View for State {
    type V = Model;

    open spec fn view(&self) -> Model {
        Model {
            pc: self.pc,
            idx: self.idx,
            u: self.u,
            r: self.r@,
            seen: self.seen@,
            gss: self.gss@,
            popped: self.popped@,
            order: self.order,
            input: self.input@,
        }
    }
}

fn seen_has(v: &Vec<SeenEntry>, e: SeenEntry) -> (r: bool)
    ensures
        r == v@.contains(e),
{
    let n = v.len();
    let mut k: usize = 0;
    while k < n
        invariant
            k <= n,
            n == v@.len(),
            forall|j: int| 0 <= j < k ==> v@[j] != e,
        decreases n - k,
    {
        if v[k] == e {
            assert(v@.contains(e));
            return true;
        }
        k += 1;
    }
    false
}

fn edge_has(v: &Vec<Edge>, e: Edge) -> (r: bool)
    ensures
        r == v@.contains(e),
{
    let n = v.len();
    let mut k: usize = 0;
    while k < n
        invariant
            k <= n,
            n == v@.len(),
            forall|j: int| 0 <= j < k ==> v@[j] != e,
        decreases n - k,
    {
        if v[k] == e {
            assert(v@.contains(e));
            return true;
        }
        k += 1;
    }
    false
}

fn poprec_has(v: &Vec<PopRec>, e: PopRec) -> (r: bool)
    ensures
        r == v@.contains(e),
{
    let n = v.len();
    let mut k: usize = 0;
    while k < n
        invariant
            k <= n,
            n == v@.len(),
            forall|j: int| 0 <= j < k ==> v@[j] != e,
        decreases n - k,
    {
        if v[k] == e {
            assert(v@.contains(e));
            return true;
        }
        k += 1;
    }
    false
}

fn sym_has(v: &Vec<Sym>, e: Sym) -> (r: bool)
    ensures
        r == v@.contains(e),
{
    let n = v.len();
    let mut k: usize = 0;
    while k < n
        invariant
            k <= n,
            n == v@.len(),
            forall|j: int| 0 <= j < k ==> v@[j] != e,
        decreases n - k,
    {
        if v[k] == e {
            assert(v@.contains(e));
            return true;
        }
        k += 1;
    }
    false
}

impl State {
    /// Worklist scheduling: schedule (lbl, node) at pos, unless that pair
    /// was already scheduled there; then this is a no-op.
    pub fn add(&mut self, lbl: Label, node: Extlbl, pos: usize)
        ensures
            final(self)@ == old(self)@.add(lbl, node, pos),
    {
        let e = SeenEntry { lbl, node, pos };
        if !seen_has(&self.seen, e) {
            self.seen.push(e);
            self.r.push(Descriptor { lbl, node, pos });
        }
    }

    /// Reduction: record that the current context node completed at `pos`
    /// and resume every caller the GSS knows for it. The bottom node never
    /// reduces, so the current node must be positioned.
    pub fn pop(&mut self, pos: usize)
        requires
            old(self).u is Positioned,
        ensures
            final(self)@ == old(self)@.pop(pos),
    {
        let lbl = self.u.to_label();
        let node = self.u;
        let rec = PopRec { node, pos };
        if !poprec_has(&self.popped, rec) {
            self.popped.push(rec);
        }
        let ghost m1 = self@;
        proof {
            assert(m1.gss.skip(0) =~= m1.gss);
        }
        let n = self.gss.len();
        let mut k: usize = 0;
        while k < n
            invariant
                k <= n,
                n == self.gss@.len(),
                self.gss@ == m1.gss,
                self.popped@ == m1.popped,
                self.pc == m1.pc,
                self.u == m1.u,
                self.idx == m1.idx,
                self.order == m1.order,
                self.input@ == m1.input,
                node == m1.u,
                lbl == m1.u.label(),
                m1.fan(node, lbl, pos, m1.gss) == self@.fan(node, lbl, pos, m1.gss.skip(k as int)),
            decreases n - k,
        {
            let e = self.gss[k];
            if e.src == node {
                self.add(lbl, e.dst, pos);
            }
            proof {
                assert(m1.gss.skip(k as int)[0] == m1.gss[k as int]);
                assert(m1.gss.skip(k as int).drop_first() =~= m1.gss.skip(k as int + 1));
            }
            k += 1;
        }
        proof {
            assert(m1.gss.skip(n as int).len() == 0);
            assert(old(self)@.pop(pos) == m1.fan(node, lbl, pos, m1.gss));
        }
    }

    /// GSS create: reuse or mint the node v = (lbl, pos), record the
    /// current node as a caller of v, replay v's memoized reductions for
    /// that caller, and move into v.
    pub fn create(&mut self, lbl: Label, pos: usize)
        ensures
            final(self)@ == old(self)@.create(lbl, pos),
    {
        let v = Extlbl::Positioned(pos, lbl);
        let caller = self.u;
        let e = Edge { src: v, dst: caller };
        if !edge_has(&self.gss, e) {
            self.gss.push(e);
        }
        let ghost m1 = self@;
        proof {
            assert(m1.popped.skip(0) =~= m1.popped);
        }
        let n = self.popped.len();
        let mut k: usize = 0;
        while k < n
            invariant
                k <= n,
                n == self.popped@.len(),
                self.popped@ == m1.popped,
                self.gss@ == m1.gss,
                self.pc == m1.pc,
                self.u == m1.u,
                self.idx == m1.idx,
                self.order == m1.order,
                self.input@ == m1.input,
                caller == m1.u,
                m1.replay(v, lbl, caller, m1.popped) == self@.replay(
                    v,
                    lbl,
                    caller,
                    m1.popped.skip(k as int),
                ),
            decreases n - k,
        {
            let rec = self.popped[k];
            if rec.node == v {
                self.add(lbl, caller, rec.pos);
            }
            proof {
                assert(m1.popped.skip(k as int)[0] == m1.popped[k as int]);
                assert(m1.popped.skip(k as int).drop_first() =~= m1.popped.skip(k as int + 1));
            }
            k += 1;
        }
        self.u = v;
        proof {
            assert(m1.popped.skip(n as int).len() == 0);
        }
    }

    /// One driver step: interpret the current label's slot, or dispatch
    /// the next descriptor. Reports completion the moment the worklist is
    /// found empty at dispatch; acceptance is then read off the seen-set.
    pub fn step(&mut self, aut: &Automaton) -> (st: Status)
        requires
            aut@.wf(),
            old(self)@.wf(aut@),
        ensures
            final(self)@ == old(self)@.step(aut@),
            final(self)@.wf(aut@),
            st == Status::Success <==> old(self)@.done() && old(self)@.accepted(aut@),
            st == Status::Failure <==> old(self)@.done() && !old(self)@.accepted(aut@),
            st == Status::Continue <==> !old(self)@.done(),
    {
        let ghost m0 = self@;
        let st = match self.pc {
            Ctrl::Dispatch => {
                if self.r.len() == 0 {
                    let e = SeenEntry {
                        lbl: aut.accept,
                        node: Extlbl::Dollar,
                        pos: self.input.len(),
                    };
                    if seen_has(&self.seen, e) {
                        Status::Success
                    } else {
                        Status::Failure
                    }
                } else {
                    let d = match self.order {
                        Order::Fifo => self.r.remove(0),
                        Order::Lifo => match self.r.pop() {
                            Some(x) => x,
                            None => unreached(),
                        },
                    };
                    proof {
                        if m0.order is Fifo {
                            assert(m0.r.remove(0) =~= m0.r.drop_first());
                        } else {
                            assert(m0.r.subrange(0, m0.r.len() - 1) =~= m0.r.drop_last());
                        }
                    }
                    self.pc = Ctrl::At(d.lbl);
                    self.u = d.node;
                    self.idx = d.pos;
                    Status::Continue
                }
            }
            Ctrl::At(l) => {
                let sl = &aut.slots[l];
                proof {
                    assert(aut@.slots[l as int] == aut.slots@.map_values(|s: Slot| s@)[l as int]);
                }
                match sl {
                    Slot::Terminal(syms) => {
                        let cur = if self.idx < self.input.len() {
                            Sym::Char(self.input[self.idx])
                        } else {
                            Sym::End
                        };
                        if sym_has(syms, cur) {
                            match self.u {
                                Extlbl::Positioned(_, _) => {
                                    let j = if self.idx < self.input.len() {
                                        self.idx + 1
                                    } else {
                                        self.idx
                                    };
                                    self.pop(j);
                                }
                                Extlbl::Dollar => {},
                            }
                        }
                        self.pc = Ctrl::Dispatch;
                        Status::Continue
                    }
                    Slot::Call { callee, ret } => {
                        let c = *callee;
                        let rt = *ret;
                        let i = self.idx;
                        self.create(rt, i);
                        self.pc = Ctrl::At(c);
                        Status::Continue
                    }
                    Slot::Alt(arms) => {
                        let cur = if self.idx < self.input.len() {
                            Sym::Char(self.input[self.idx])
                        } else {
                            Sym::End
                        };
                        let ghost armsg = arms@.map_values(|a: crate::automaton::Arm| a@);
                        proof {
                            assert(armsg.skip(0) =~= armsg);
                        }
                        let n = arms.len();
                        let mut k: usize = 0;
                        while k < n
                            invariant
                                k <= n,
                                n == arms@.len(),
                                armsg == arms@.map_values(|a: crate::automaton::Arm| a@),
                                self.pc == m0.pc,
                                self.u == m0.u,
                                self.idx == m0.idx,
                                self.order == m0.order,
                                self.input@ == m0.input,
                                self.gss@ == m0.gss,
                                self.popped@ == m0.popped,
                                cur == m0.cur_sym(),
                                m0.enq_alts(armsg, cur) == self@.enq_alts(
                                    armsg.skip(k as int),
                                    cur,
                                ),
                            decreases n - k,
                        {
                            proof {
                                assert(armsg[k as int] == arms@[k as int]@);
                            }
                            if sym_has(&arms[k].trigger, cur) {
                                let ent = arms[k].entry;
                                let nd = self.u;
                                let ix = self.idx;
                                self.add(ent, nd, ix);
                            }
                            proof {
                                assert(armsg.skip(k as int)[0] == armsg[k as int]);
                                assert(armsg.skip(k as int).drop_first() =~= armsg.skip(
                                    k as int + 1,
                                ));
                            }
                            k += 1;
                        }
                        proof {
                            assert(armsg.skip(n as int).len() == 0);
                        }
                        self.pc = Ctrl::Dispatch;
                        Status::Continue
                    }
                    Slot::Return => {
                        match self.u {
                            Extlbl::Positioned(_, _) => {
                                let i = self.idx;
                                self.pop(i);
                            }
                            Extlbl::Dollar => {},
                        }
                        self.pc = Ctrl::Dispatch;
                        Status::Continue
                    }
                }
            }
        };
        proof {
            m0.lemma_step_wf(aut@);
        }
        st
    }

    /// A fresh engine state: control at the start label, position 0, in
    /// the initial context node, whose one GSS edge points at the bottom
    /// node.
    pub fn init(aut: &Automaton, input: Vec<char>, order: Order) -> (s: State)
        requires
            aut@.wf(),
        ensures
            s@ == Model::init(aut@, input@, order),
            s@.wf(aut@),
    {
        let u1 = Extlbl::Positioned(0, aut.accept);
        let mut gss: Vec<Edge> = Vec::new();
        gss.push(Edge { src: u1, dst: Extlbl::Dollar });
        let s = State {
            pc: Ctrl::At(aut.start),
            idx: 0,
            u: u1,
            r: Vec::new(),
            seen: Vec::new(),
            gss,
            popped: Vec::new(),
            order,
            input,
        };
        proof {
            assert(s@.gss =~= Model::init(aut@, input@, order).gss);
            assert(s@ == Model::init(aut@, input@, order));
        }
        s
    }
}

/// Drive the engine from a fresh state until the worklist empties or
/// `fuel` steps have been spent. `Some(b)` is the verdict of a completed
/// run; `None` reports the fuel ran out first, surfaced to the caller
/// rather than masked as a rejection.
pub fn run(aut: &Automaton, input: Vec<char>, order: Order, fuel: u64) -> (r: Option<bool>)
    requires
        aut@.wf(),
    ensures
        r == Model::verdict_within(aut@, Model::init(aut@, input@, order), fuel as nat),
{
    let mut s = State::init(aut, input, order);
    let ghost m0 = s@;
    let mut left: u64 = fuel;
    loop
        invariant
            aut@.wf(),
            s@.wf(aut@),
            m0 == Model::init(aut@, input@, order),
            left <= fuel,
            Model::verdict_within(aut@, m0, fuel as nat) == Model::verdict_within(
                aut@,
                s@,
                left as nat,
            ),
        decreases left,
    {
        let st = s.step(aut);
        match st {
            Status::Success => {
                return Some(true);
            }
            Status::Failure => {
                return Some(false);
            }
            Status::Continue => {
                if left == 0 {
                    return None;
                }
                left = left - 1;
            }
        }
    }
}

} // verus!
