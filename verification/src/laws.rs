use vstd::prelude::*;

use crate::automaton::{ArmModel, AutModel, SlotModel};
use crate::model::Model;
use crate::nodes::{Ctrl, Descriptor, Edge, Extlbl, Label, PopRec, SeenEntry, Sym};

verus! {

/// A sequence is a prefix of itself extended by one element.
proof fn lemma_prefix_push<T>(s: Seq<T>, e: T)
    ensures
        s.is_prefix_of(s.push(e)),
{
    assert(s =~= s.push(e).subrange(0, s.len() as int));
}

/// Prefixes compose.
proof fn lemma_prefix_trans<T>(a: Seq<T>, b: Seq<T>, c: Seq<T>)
    requires
        a.is_prefix_of(b),
        b.is_prefix_of(c),
    ensures
        a.is_prefix_of(c),
{
    assert(a =~= c.subrange(0, a.len() as int));
}

/// Whatever a prefix holds, the longer sequence holds.
proof fn lemma_prefix_contains<T>(a: Seq<T>, b: Seq<T>, x: T)
    requires
        a.is_prefix_of(b),
        a.contains(x),
    ensures
        b.contains(x),
{
    let i = choose|i: int| 0 <= i < a.len() && a[i] == x;
    assert(b[i] == a.subrange(0, a.len() as int)[i]);
}

/// Scheduling only appends: the seen-set and the worklist are extended,
/// the GSS, the popped-set and the control fields stand.
proof fn lemma_add_grows(m: Model, lbl: Label, node: Extlbl, pos: usize)
    ensures
        m.seen.is_prefix_of(m.add(lbl, node, pos).seen),
        m.r.is_prefix_of(m.add(lbl, node, pos).r),
        m.add(lbl, node, pos).gss == m.gss,
        m.add(lbl, node, pos).popped == m.popped,
        m.add(lbl, node, pos).u == m.u,
        m.add(lbl, node, pos).idx == m.idx,
        m.add(lbl, node, pos).pc == m.pc,
        m.add(lbl, node, pos).order == m.order,
        m.add(lbl, node, pos).input == m.input,
{
    let e = SeenEntry { lbl, node, pos };
    if !m.seen.contains(e) {
        lemma_prefix_push(m.seen, e);
        lemma_prefix_push(m.r, Descriptor { lbl, node, pos });
    }
}

/// Fanning a reduction out only appends to the seen-set and the worklist.
proof fn lemma_fan_grows(m: Model, u: Extlbl, lbl: Label, pos: usize, edges: Seq<Edge>)
    ensures
        m.seen.is_prefix_of(m.fan(u, lbl, pos, edges).seen),
        m.r.is_prefix_of(m.fan(u, lbl, pos, edges).r),
        m.fan(u, lbl, pos, edges).gss == m.gss,
        m.fan(u, lbl, pos, edges).popped == m.popped,
        m.fan(u, lbl, pos, edges).u == m.u,
        m.fan(u, lbl, pos, edges).idx == m.idx,
        m.fan(u, lbl, pos, edges).pc == m.pc,
        m.fan(u, lbl, pos, edges).order == m.order,
        m.fan(u, lbl, pos, edges).input == m.input,
    decreases edges.len(),
{
    if edges.len() == 0 {
        lemma_seq_refl(m);
    } else {
        let s1 = if edges[0].src == u {
            m.add(lbl, edges[0].dst, pos)
        } else {
            m
        };
        lemma_add_grows(m, lbl, edges[0].dst, pos);
        lemma_fan_grows(s1, u, lbl, pos, edges.drop_first());
        lemma_prefix_trans(m.seen, s1.seen, s1.fan(u, lbl, pos, edges.drop_first()).seen);
        lemma_prefix_trans(m.r, s1.r, s1.fan(u, lbl, pos, edges.drop_first()).r);
    }
}

/// Replaying memoized reductions only appends to the seen-set and the
/// worklist.
proof fn lemma_replay_grows(m: Model, v: Extlbl, lbl: Label, caller: Extlbl, recs: Seq<PopRec>)
    ensures
        m.seen.is_prefix_of(m.replay(v, lbl, caller, recs).seen),
        m.r.is_prefix_of(m.replay(v, lbl, caller, recs).r),
        m.replay(v, lbl, caller, recs).gss == m.gss,
        m.replay(v, lbl, caller, recs).popped == m.popped,
    decreases recs.len(),
{
    if recs.len() == 0 {
        lemma_seq_refl(m);
    } else {
        let s1 = if recs[0].node == v {
            m.add(lbl, caller, recs[0].pos)
        } else {
            m
        };
        lemma_add_grows(m, lbl, caller, recs[0].pos);
        lemma_replay_grows(s1, v, lbl, caller, recs.drop_first());
        lemma_prefix_trans(m.seen, s1.seen, s1.replay(v, lbl, caller, recs.drop_first()).seen);
        lemma_prefix_trans(m.r, s1.r, s1.replay(v, lbl, caller, recs.drop_first()).r);
    }
}

/// Scheduling triggered alternatives only appends to the seen-set and
/// the worklist.
proof fn lemma_enq_alts_grows(m: Model, arms: Seq<ArmModel>, cur: Sym)
    ensures
        m.seen.is_prefix_of(m.enq_alts(arms, cur).seen),
        m.r.is_prefix_of(m.enq_alts(arms, cur).r),
        m.enq_alts(arms, cur).gss == m.gss,
        m.enq_alts(arms, cur).popped == m.popped,
    decreases arms.len(),
{
    if arms.len() == 0 {
        lemma_seq_refl(m);
    } else {
        let s1 = if arms[0].trigger.contains(cur) {
            m.add(arms[0].entry, m.u, m.idx)
        } else {
            m
        };
        lemma_add_grows(m, arms[0].entry, m.u, m.idx);
        lemma_enq_alts_grows(s1, arms.drop_first(), cur);
        lemma_prefix_trans(m.seen, s1.seen, s1.enq_alts(arms.drop_first(), cur).seen);
        lemma_prefix_trans(m.r, s1.r, s1.enq_alts(arms.drop_first(), cur).r);
    }
}

/// A reduction only appends: the popped-set gains at most the one record,
/// the seen-set and the worklist gain the resumed callers, the GSS stands.
proof fn lemma_pop_grows(m: Model, pos: usize)
    ensures
        m.seen.is_prefix_of(m.pop(pos).seen),
        m.r.is_prefix_of(m.pop(pos).r),
        m.popped.is_prefix_of(m.pop(pos).popped),
        m.pop(pos).gss == m.gss,
        m.pop(pos).u == m.u,
{
    let rec = PopRec { node: m.u, pos };
    let s1 = if m.popped.contains(rec) {
        m
    } else {
        Model { popped: m.popped.push(rec), ..m }
    };
    if !m.popped.contains(rec) {
        lemma_prefix_push(m.popped, rec);
    } else {
        assert(m.popped.is_prefix_of(s1.popped)) by {
            assert(m.popped =~= s1.popped.subrange(0, m.popped.len() as int));
        }
    }
    lemma_fan_grows(s1, m.u, m.u.label(), pos, s1.gss);
}

/// A GSS create only appends: at most one edge, and replayed schedulings.
proof fn lemma_create_grows(m: Model, lbl: Label, pos: usize)
    ensures
        m.seen.is_prefix_of(m.create(lbl, pos).seen),
        m.r.is_prefix_of(m.create(lbl, pos).r),
        m.gss.is_prefix_of(m.create(lbl, pos).gss),
        m.create(lbl, pos).popped == m.popped,
{
    let v = Extlbl::Positioned(pos, lbl);
    let e = Edge { src: v, dst: m.u };
    let s1 = if m.gss.contains(e) {
        m
    } else {
        Model { gss: m.gss.push(e), ..m }
    };
    if !m.gss.contains(e) {
        lemma_prefix_push(m.gss, e);
    } else {
        assert(m.gss =~= s1.gss.subrange(0, m.gss.len() as int));
    }
    lemma_replay_grows(s1, v, lbl, m.u, s1.popped);
}

/// Every state's stores are prefixes of themselves.
proof fn lemma_seq_refl(m: Model)
    ensures
        m.seen.is_prefix_of(m.seen),
        m.r.is_prefix_of(m.r),
        m.gss.is_prefix_of(m.gss),
        m.popped.is_prefix_of(m.popped),
{
    assert(m.seen =~= m.seen.subrange(0, m.seen.len() as int));
    assert(m.r =~= m.r.subrange(0, m.r.len() as int));
    assert(m.gss =~= m.gss.subrange(0, m.gss.len() as int));
    assert(m.popped =~= m.popped.subrange(0, m.popped.len() as int));
}

/// Monotonicity: one driver step never removes a seen-set record, a GSS
/// edge or a popped record — each store of the old state is a prefix of
/// the new one, so membership is preserved.
pub proof fn lemma_step_monotonic(a: AutModel, m: Model)
    ensures
        m.seen.is_prefix_of(m.step(a).seen),
        m.gss.is_prefix_of(m.step(a).gss),
        m.popped.is_prefix_of(m.step(a).popped),
        forall|e: SeenEntry| m.seen.contains(e) ==> #[trigger] m.step(a).seen.contains(e),
        forall|e: Edge| m.gss.contains(e) ==> #[trigger] m.step(a).gss.contains(e),
        forall|p: PopRec| m.popped.contains(p) ==> #[trigger] m.step(a).popped.contains(p),
{
    lemma_seq_refl(m);
    match m.pc {
        Ctrl::Dispatch => {}
        Ctrl::At(l) => {
            match a.slots[l as int] {
                SlotModel::Terminal(syms) => {
                    if syms.contains(m.cur_sym()) && m.u is Positioned {
                        let j = if m.idx < m.input.len() {
                            (m.idx + 1) as usize
                        } else {
                            m.idx
                        };
                        lemma_pop_grows(m, j);
                    }
                }
                SlotModel::Call { callee, ret } => {
                    lemma_create_grows(m, ret, m.idx);
                }
                SlotModel::Alt(arms) => {
                    lemma_enq_alts_grows(m, arms, m.cur_sym());
                }
                SlotModel::Return => {
                    if m.u is Positioned {
                        lemma_pop_grows(m, m.idx);
                    }
                }
            }
        }
    }
    assert forall|e: SeenEntry| m.seen.contains(e) implies #[trigger] m.step(a).seen.contains(
        e,
    ) by {
        lemma_prefix_contains(m.seen, m.step(a).seen, e);
    }
    assert forall|e: Edge| m.gss.contains(e) implies #[trigger] m.step(a).gss.contains(e) by {
        lemma_prefix_contains(m.gss, m.step(a).gss, e);
    }
    assert forall|p: PopRec| m.popped.contains(p) implies #[trigger] m.step(a).popped.contains(
        p,
    ) by {
        lemma_prefix_contains(m.popped, m.step(a).popped, p);
    }
}

/// Monotonicity across a whole run: after any number of further steps,
/// each store of the earlier state is a prefix of the later one.
pub proof fn lemma_run_monotonic(a: AutModel, m0: Model, n: nat)
    ensures
        m0.seen.is_prefix_of(Model::run_to(a, m0, n).seen),
        m0.gss.is_prefix_of(Model::run_to(a, m0, n).gss),
        m0.popped.is_prefix_of(Model::run_to(a, m0, n).popped),
    decreases n,
{
    if n == 0 {
        lemma_seq_refl(m0);
    } else {
        let prev = Model::run_to(a, m0, (n - 1) as nat);
        lemma_run_monotonic(a, m0, (n - 1) as nat);
        lemma_step_monotonic(a, prev);
        lemma_prefix_trans(m0.seen, prev.seen, prev.step(a).seen);
        lemma_prefix_trans(m0.gss, prev.gss, prev.step(a).gss);
        lemma_prefix_trans(m0.popped, prev.popped, prev.step(a).popped);
    }
}

/// Idempotent scheduling: the first `add` of a triple not yet seen appends
/// exactly one descriptor, and a second `add` of the identical triple is a
/// no-op, so two calls enqueue exactly one descriptor.
pub proof fn lemma_add_idempotent(m: Model, lbl: Label, node: Extlbl, pos: usize)
    ensures
        m.add(lbl, node, pos).add(lbl, node, pos) == m.add(lbl, node, pos),
        !m.seen.contains(SeenEntry { lbl, node, pos }) ==> m.add(lbl, node, pos).r == m.r.push(
            Descriptor { lbl, node, pos },
        ),
        m.seen.contains(SeenEntry { lbl, node, pos }) ==> m.add(lbl, node, pos) == m,
{
    let e = SeenEntry { lbl, node, pos };
    let m1 = m.add(lbl, node, pos);
    if !m.seen.contains(e) {
        assert(m1.seen[m.seen.len() as int] == e);
        assert(m1.seen.contains(e));
    }
}

/// After a fan-out, the seen-set holds the resumption record of every
/// caller the edge sequence names for `u`.
proof fn lemma_fan_covers(m: Model, u: Extlbl, lbl: Label, pos: usize, edges: Seq<Edge>)
    ensures
        forall|j: int|
            0 <= j < edges.len() && (#[trigger] edges[j]).src == u ==> m.fan(
                u,
                lbl,
                pos,
                edges,
            ).seen.contains(SeenEntry { lbl, node: edges[j].dst, pos }),
    decreases edges.len(),
{
    if edges.len() > 0 {
        let s1 = if edges[0].src == u {
            m.add(lbl, edges[0].dst, pos)
        } else {
            m
        };
        let rest = edges.drop_first();
        lemma_fan_covers(s1, u, lbl, pos, rest);
        lemma_fan_grows(s1, u, lbl, pos, rest);
        assert forall|j: int|
            0 <= j < edges.len() && (#[trigger] edges[j]).src == u implies m.fan(
            u,
            lbl,
            pos,
            edges,
        ).seen.contains(SeenEntry { lbl, node: edges[j].dst, pos }) by {
            if j == 0 {
                let e = SeenEntry { lbl, node: edges[0].dst, pos };
                lemma_add_idempotent(m, lbl, edges[0].dst, pos);
                assert(s1.seen.contains(e));
                lemma_prefix_contains(s1.seen, s1.fan(u, lbl, pos, rest).seen, e);
            } else {
                assert(rest[j - 1] == edges[j]);
            }
        }
    }
}

/// A fan-out whose every record is already seen changes nothing.
proof fn lemma_fan_absorbed(m: Model, u: Extlbl, lbl: Label, pos: usize, edges: Seq<Edge>)
    requires
        forall|j: int|
            0 <= j < edges.len() && (#[trigger] edges[j]).src == u ==> m.seen.contains(
                SeenEntry { lbl, node: edges[j].dst, pos },
            ),
    ensures
        m.fan(u, lbl, pos, edges) == m,
    decreases edges.len(),
{
    if edges.len() > 0 {
        let rest = edges.drop_first();
        assert forall|j: int|
            0 <= j < rest.len() && (#[trigger] rest[j]).src == u implies m.seen.contains(
            SeenEntry { lbl, node: rest[j].dst, pos },
        ) by {
            assert(rest[j] == edges[j + 1]);
        }
        lemma_fan_absorbed(m, u, lbl, pos, rest);
    }
}

/// Sharing: a reduction is recorded at most once per (node, position).
/// The first pop appends the record; popping the same pair again changes
/// nothing at all — not the popped-set, not the seen-set, not the
/// worklist — so ambiguous derivations sharing a completion are resumed
/// once, not once per derivation. With `wf`, the popped store also stays
/// duplicate-free: a set, never a multiset.
pub proof fn lemma_pop_idempotent(m: Model, pos: usize)
    ensures
        m.pop(pos).pop(pos) == m.pop(pos),
        m.pop(pos).popped.contains((PopRec { node: m.u, pos })),
        forall|q: PopRec|
            (#[trigger] m.pop(pos).popped.contains(q) <==> m.popped.contains(q) || q == (PopRec {
                node: m.u,
                pos,
            })),
{
    let rec = PopRec { node: m.u, pos };
    let s1 = if m.popped.contains(rec) {
        m
    } else {
        Model { popped: m.popped.push(rec), ..m }
    };
    let p1 = m.pop(pos);
    lemma_fan_grows(s1, m.u, m.u.label(), pos, s1.gss);
    if !m.popped.contains(rec) {
        assert(s1.popped[m.popped.len() as int] == rec);
        assert(s1.popped.contains(rec));
    }
    assert(p1.popped == s1.popped);
    assert(p1.popped.contains(rec));
    assert forall|q: PopRec| #[trigger]
        p1.popped.contains(q) <==> m.popped.contains(q) || q == rec by {
        if p1.popped.contains(q) {
            let i = choose|i: int| 0 <= i < p1.popped.len() && p1.popped[i] == q;
            if i < m.popped.len() {
                assert(m.popped.contains(q));
            }
        }
        if m.popped.contains(q) {
            let i = choose|i: int| 0 <= i < m.popped.len() && m.popped[i] == q;
            assert(p1.popped[i] == q);
        }
    }
    // The second pop finds the record present and every fanned entry seen.
    lemma_fan_covers(s1, m.u, m.u.label(), pos, s1.gss);
    assert(p1.u == m.u);
    assert(p1.gss == s1.gss);
    assert forall|j: int|
        0 <= j < p1.gss.len() && (#[trigger] p1.gss[j]).src == p1.u implies p1.seen.contains(
        SeenEntry { lbl: p1.u.label(), node: p1.gss[j].dst, pos },
    ) by {}
    lemma_fan_absorbed(p1, p1.u, p1.u.label(), pos, p1.gss);
}

/// A completed run is a fixed point of the driver step.
pub proof fn lemma_done_stutter(a: AutModel, m: Model)
    requires
        m.done(),
    ensures
        m.step(a) == m,
{
}

/// A verdict, once reached, is stable under any amount of further fuel.
pub proof fn lemma_verdict_stable(a: AutModel, m: Model, f1: nat, f2: nat)
    requires
        Model::verdict_within(a, m, f1) is Some,
        f1 <= f2,
    ensures
        Model::verdict_within(a, m, f2) == Model::verdict_within(a, m, f1),
    decreases f1,
{
    if !m.done() {
        lemma_verdict_stable(a, m.step(a), (f1 - 1) as nat, (f2 - 1) as nat);
    }
}

} // verus!
