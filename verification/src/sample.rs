use vstd::prelude::*;

use crate::automaton::{Arm, ArmModel, AutModel, Automaton, Slot, SlotModel};
use crate::model::Model;
use crate::nodes::{Order, Sym};
use crate::state::run;

verus! {

/// The slot automaton of the sample grammar
///
///     S ::= A S 'd' | B S | (empty)
///     A ::= 'a' | 'c'
///     B ::= 'a' | 'b'
///
/// laid out over eleven labels. Label 1 is both the acceptance label and
/// the return label of the outermost call; the initial context node is
/// built on it.
pub open spec fn sample_model() -> AutModel {
    AutModel {
        slots: seq![
            // 0: entry of S, one arm per alternative with its lookahead
            SlotModel::Alt(
                seq![
                    ArmModel { trigger: seq![Sym::Char('a'), Sym::Char('c')], entry: 2 },
                    ArmModel { trigger: seq![Sym::Char('a'), Sym::Char('b')], entry: 5 },
                    ArmModel { trigger: seq![Sym::Char('d'), Sym::End], entry: 8 },
                ],
            ),
            // 1: the acceptance label
            SlotModel::Return,
            // 2: S ::= . A S d, call A
            SlotModel::Call { callee: 9, ret: 3 },
            // 3: S ::= A . S d, call S
            SlotModel::Call { callee: 0, ret: 4 },
            // 4: S ::= A S . d, match the closing d
            SlotModel::Terminal(seq![Sym::Char('d')]),
            // 5: S ::= . B S, call B
            SlotModel::Call { callee: 10, ret: 6 },
            // 6: S ::= B . S, call S
            SlotModel::Call { callee: 0, ret: 7 },
            // 7: S ::= B S ., reduce
            SlotModel::Return,
            // 8: S ::= ., reduce the empty alternative
            SlotModel::Return,
            // 9: body of A
            SlotModel::Terminal(seq![Sym::Char('a'), Sym::Char('c')]),
            // 10: body of B
            SlotModel::Terminal(seq![Sym::Char('a'), Sym::Char('b')]),
        ],
        start: 0,
        accept: 1,
    }
}

/// The sample automaton mentions no label outside its table.
pub proof fn lemma_sample_wf()
    ensures
        sample_model().wf(),
{
    let a = sample_model();
    assert forall|j: int| 0 <= j < a.slots.len() implies (#[trigger] a.slots[j]).wf(
        a.slots.len() as int,
    ) by {
        if j == 0 {
            let arms = seq![
                ArmModel { trigger: seq![Sym::Char('a'), Sym::Char('c')], entry: 2 },
                ArmModel { trigger: seq![Sym::Char('a'), Sym::Char('b')], entry: 5 },
                ArmModel { trigger: seq![Sym::Char('d'), Sym::End], entry: 8 },
            ];
            assert(a.slots[0] == SlotModel::Alt(arms));
            assert forall|k: int| 0 <= k < arms.len() implies (#[trigger] arms[k]).entry
                < a.slots.len() by {
                if k == 0 {
                } else if k == 1 {
                } else {
                    assert(arms[2].entry == 8);
                }
            }
        }
    }
}

/// The executable image of `sample_model`.
pub fn sample_automaton() -> (a: Automaton)
    ensures
        a@ == sample_model(),
        a@.wf(),
{
    let mut t0: Vec<Sym> = Vec::new();
    t0.push(Sym::Char('a'));
    t0.push(Sym::Char('c'));
    let mut t1: Vec<Sym> = Vec::new();
    t1.push(Sym::Char('a'));
    t1.push(Sym::Char('b'));
    let mut t2: Vec<Sym> = Vec::new();
    t2.push(Sym::Char('d'));
    t2.push(Sym::End);
    let mut arms: Vec<Arm> = Vec::new();
    arms.push(Arm { trigger: t0, entry: 2 });
    arms.push(Arm { trigger: t1, entry: 5 });
    arms.push(Arm { trigger: t2, entry: 8 });
    let mut ta: Vec<Sym> = Vec::new();
    ta.push(Sym::Char('a'));
    ta.push(Sym::Char('c'));
    let mut tb: Vec<Sym> = Vec::new();
    tb.push(Sym::Char('a'));
    tb.push(Sym::Char('b'));
    let mut td: Vec<Sym> = Vec::new();
    td.push(Sym::Char('d'));
    let mut slots: Vec<Slot> = Vec::new();
    slots.push(Slot::Alt(arms));
    slots.push(Slot::Return);
    slots.push(Slot::Call { callee: 9, ret: 3 });
    slots.push(Slot::Call { callee: 0, ret: 4 });
    slots.push(Slot::Terminal(td));
    slots.push(Slot::Call { callee: 10, ret: 6 });
    slots.push(Slot::Call { callee: 0, ret: 7 });
    slots.push(Slot::Return);
    slots.push(Slot::Return);
    slots.push(Slot::Terminal(ta));
    slots.push(Slot::Terminal(tb));
    let a = Automaton { slots, start: 0, accept: 1 };
    proof {
        let m = sample_model();
        assert(a@.slots.len() == 11);
        assert forall|j: int| 0 <= j < 11 implies a@.slots[j] == m.slots[j] by {
            assert(a@.slots[j] == a.slots@[j]@);
            if j == 0 {
                assert(a.slots@[0]@ =~~= m.slots[0]);
            } else if j == 4 {
                assert(a.slots@[4]@ =~~= m.slots[4]);
            } else if j == 9 {
                assert(a.slots@[9]@ =~~= m.slots[9]);
            } else if j == 10 {
                assert(a.slots@[10]@ =~~= m.slots[10]);
            }
        }
        assert(a@.slots =~= m.slots);
        assert(a@ =~= m);
        lemma_sample_wf();
    }
    a
}

/// The verdict the engine model gives the input under the sample grammar,
/// scheduling first-in first-out, with all the fuel a `u64` can carry.
pub open spec fn sample_verdict(input: Seq<char>) -> Option<bool> {
    Model::verdict_within(
        sample_model(),
        Model::init(sample_model(), input, Order::Fifo),
        u64::MAX as nat,
    )
}

/// Whether the sample grammar derives the input. A run that exhausts the
/// (astronomical) fuel bound would report rejection; the verdict clause
/// keeps that case distinguishable.
pub fn recognises(input: Vec<char>) -> (r: bool)
    ensures
        sample_verdict(input@) == Some(r) || (sample_verdict(input@) is None && !r),
{
    let aut = sample_automaton();
    let res = run(&aut, input, Order::Fifo, u64::MAX);
    match res {
        Some(b) => b,
        None => false,
    }
}

} // verus!
