//! What the rules of `update` systems do to the slots of an entity, in exact arithmetic.

use crate::block::lower_stmts;
use crate::eir::{ComponentRefView, InstructionView, Opcode, Real};
use crate::emit::{const_of, known_of, op_of, resumed, truthy_of, Emit};
use crate::evaluation::{
    lemma_known_value, lemma_shows, lemma_truthy_value, lemma_value, names_of, plain, shows, value,
    Sight,
};
use crate::expr::ExprView;
use crate::functions::{
    knows_frame, lemma_change, lemma_chosen, lemma_flag, lemma_pair, lemma_rule_values,
    lemma_rule_writes, lemma_slots,
};
use crate::integration::{
    applies_in, frame_shows, has_rule, holds_state, lemma_frame_shows, lemma_offset,
    lemma_resolved_prefix, lemma_rule_ctx, lemma_ruled_is_has_rule, lemma_ruled_step,
    lemma_slots_read, rate, rates, rule_ctx, rule_names, ruled, seen_in, slots_in, sound_rules,
    State,
};
use crate::lower::lower_expr_spec;
use crate::meaning::{
    followed, group_follow, held_by, lemma_registers_stay, lemma_world_stays, number_of, run,
    Functions, Machine,
};
use crate::motion::slot_of;
use crate::numbering::{after, group_code, has, has_all, has_some, tidy, yields};
use crate::registers::{knows, lemma_expr, lemma_knows, lemma_slot};
use crate::rules::slot_reads;
use crate::scope::{slot_reg, CtxView};
use crate::simultaneity::{
    still, lemma_change as lemma_change_still, lemma_flag as lemma_flag_still,
    lemma_rule_values as lemma_rule_values_still,
};
use crate::update::{
    change_of, chosen, flag_of, resolved, rule_slot, rule_values, rule_writes, update_substep,
    Frame, RulesView,
};
use vstd::prelude::*;

verus! {

broadcast use group_code;

/// The length of a substep.
pub open spec fn substep(u: RulesView) -> real {
    number_of(u.dt) / (u.substeps as u64 as real)
}

proof fn lemma_change_value(
    u: RulesView,
    e: ExprView,
    ctx: CtxView,
    see: Sight,
    s: Emit,
    f: Functions,
    m: Machine,
)
    requires
        tidy(s, 1),
        knows(ctx, s, 1),
        shows(see, ctx, s, f, m),
        plain(e, names_of(ctx)),
        1 + change_of(u, e, ctx, s).0.out.len() < u32::MAX,
    ensures
        ({
            let (t, r) = change_of(u, e, ctx, s);
            &&& yields(s, (t, r), 1)
            &&& held_by(t, r, f, m) == value(e, names_of(ctx), see, f) * substep(u)
        }),
{
    lemma_change(u, e, ctx, s);
    lemma_expr(e, ctx, s, 1);
    let (s1, x) = lower_expr_spec(e, ctx, s);
    let (s2, dt) = const_of(s1, Real::Step { dt: u.dt, substeps: u.substeps as u64 });
    let (t, r) = op_of(s2, Opcode::Mul, seq![x, dt]);
    assert(t.out.len() == s1.out.len() + 2);
    lemma_value(e, ctx, s, see, f, m);
    broadcast use group_follow;

    assert(followed(f, m));
    assert(held_by(s2, dt, f, m) == substep(u));
    assert(held_by(s2, x, f, m) == held_by(s1, x, f, m));
}

/// What the rule at a place of the resolved ones makes of its slot.
pub open spec fn rule_result(
    u: RulesView,
    fr: Frame,
    see: Sight,
    f: Functions,
    found: Seq<(usize, nat)>,
    q: int,
    set: bool,
) -> real {
    let old = (see.slot)(found[q].0);
    if set {
        old + value(u.rules[found[q].1 as int].1, rule_names(u, fr), see, f) * substep(u)
    } else {
        old
    }
}

proof fn lemma_added_value(
    s: Emit,
    cur: u32,
    change: u32,
    flag: Option<u32>,
    f: Functions,
    m: Machine,
)
    requires
        tidy(s, 1),
        has(s, 1, cur),
        has(s, 1, change),
        has_some(s, 1, flag),
        s.out.len() + (if flag is Some {
            2int
        } else {
            1int
        }) < u32::MAX,
    ensures
        ({
            let (s1, sum) = op_of(s, Opcode::Add, seq![cur, change]);
            let (t, r) = chosen(s1, sum, cur, flag);
            held_by(t, r, f, m) == (if flag is None || held_by(s, flag->0, f, m) != 0 as real {
                held_by(s, cur, f, m) + held_by(s, change, f, m)
            } else {
                held_by(s, cur, f, m)
            })
        }),
{
    broadcast use group_follow;

    assert(followed(f, m));
    let (s1, sum) = op_of(s, Opcode::Add, seq![cur, change]);
    assert(held_by(s1, cur, f, m) == held_by(s, cur, f, m));
    if let Some(g) = flag {
        assert(held_by(s1, g, f, m) == held_by(s, g, f, m));
    }
}

#[verifier::rlimit(60)]
proof fn lemma_results(
    u: RulesView,
    fr: Frame,
    found: Seq<(usize, nat)>,
    n: nat,
    ctx: CtxView,
    see: Sight,
    flag: Option<u32>,
    set: bool,
    s: Emit,
    f: Functions,
    m: Machine,
)
    requires
        n <= found.len(),
        names_of(ctx) == rule_names(u, fr),
        forall|q: int|
            0 <= q < found.len() ==> (#[trigger] found[q]).1 < u.rules.len() && plain(
                u.rules[found[q].1 as int].1,
                rule_names(u, fr),
            ),
        tidy(s, 1),
        knows(ctx, s, 1),
        shows(see, ctx, s, f, m),
        has_some(s, 1, flag),
        set == (flag matches Some(g) ==> held_by(s, g, f, m) != 0 as real),
        1 + rule_values(u, found, n, ctx, flag, s).0.out.len() < u32::MAX,
    ensures
        ({
            let (t, vals) = rule_values(u, found, n, ctx, flag, s);
            &&& tidy(t, 1)
            &&& has_all(t, 1, vals)
            &&& vals.len() == n
            &&& after(s, t, 1)
            &&& still(s, t)
            &&& forall|q: int|
                0 <= q < n ==> held_by(t, #[trigger] vals[q], f, m) == rule_result(
                    u,
                    fr,
                    see,
                    f,
                    found,
                    q,
                    set,
                )
        }),
    decreases n,
{
    lemma_rule_values(u, found, n, ctx, flag, s);
    lemma_rule_values_still(u, found, n, ctx, flag, s);
    if n > 0 {
        let (s1, vals) = rule_values(u, found, (n - 1) as nat, ctx, flag, s);
        lemma_rule_values(u, found, (n - 1) as nat, ctx, flag, s);
        lemma_rule_values_still(u, found, (n - 1) as nat, ctx, flag, s);
        let (slot, rule) = found[n - 1];
        let e = u.rules[rule as int].1;
        lemma_knows(ctx, s, s1, 1);
        lemma_change(u, e, ctx, s1);
        lemma_change_still(u, e, ctx, s1);
        let (s2, change) = change_of(u, e, ctx, s1);
        lemma_knows(ctx, s1, s2, 1);
        lemma_slot(ctx, slot, s2, 1);
        let (s3, cur) = known_of(s2, slot_reg(ctx, slot));
        lemma_pair(Opcode::Add, cur, change, s3);
        let (s4, sum) = op_of(s3, Opcode::Add, seq![cur, change]);
        lemma_chosen(sum, cur, flag, s4);
        let (s5, new) = chosen(s4, sum, cur, flag);
        let (t, all) = rule_values(u, found, n, ctx, flag, s);
        assert(t == s5 && all == vals.push(new));
        assert(s1.out.len() <= s2.out.len() <= s3.out.len() && s3.out.len() + (if flag is Some {
            2int
        } else {
            1int
        }) == t.out.len());
        lemma_results(u, fr, found, (n - 1) as nat, ctx, see, flag, set, s, f, m);
        lemma_shows(see, ctx, s, s1, f, m);
        lemma_change_value(u, e, ctx, see, s1, f, m);
        lemma_shows(see, ctx, s1, s2, f, m);
        assert((see.slot)(slot) == crate::evaluation::read_by(s2, slot_reg(ctx, slot), f, m));
        if slot < ctx.parts.slot_regs.len() {
            assert(has(s2, 1, ctx.parts.slot_regs[slot as int]));
        }
        lemma_known_value(s2, slot_reg(ctx, slot), f, m);
        lemma_registers_stay(s2, s3, f, m);
        assert(held_by(s3, change, f, m) == held_by(s2, change, f, m));
        lemma_registers_stay(s, s3, f, m);
        if let Some(g) = flag {
            assert(held_by(s3, g, f, m) == held_by(s, g, f, m));
        }
        lemma_added_value(s3, cur, change, flag, f, m);
        lemma_registers_stay(s1, t, f, m);
        assert forall|q: int| 0 <= q < n implies held_by(t, #[trigger] all[q], f, m)
            == rule_result(u, fr, see, f, found, q, set) by {
            if q < n - 1 {
                assert(all[q] == vals[q]);
                assert(has(s1, 1, vals[q]));
                assert(held_by(t, vals[q], f, m) == held_by(s1, vals[q], f, m));
            }
        }
    }
}

/// The index of the last of the first rules that names a slot.
pub open spec fn last_rule(u: RulesView, fr: Frame, slot: usize, j: nat) -> int
    decreases j,
{
    if j == 0 || j > u.rules.len() {
        -1
    } else if rule_slot(u.rules[j - 1].0, fr.sn) == Some(slot) {
        j - 1
    } else {
        last_rule(u, fr, slot, (j - 1) as nat)
    }
}

proof fn lemma_last_rule(
    u: RulesView,
    fr: Frame,
    v: Sight,
    f: Functions,
    y: State,
    slot: usize,
    j: nat,
)
    requires
        j <= u.rules.len(),
        ruled(u, fr, j, slot as int),
    ensures
        0 <= last_rule(u, fr, slot, j) < j,
        rule_slot(u.rules[last_rule(u, fr, slot, j)].0, fr.sn) == Some(slot),
        rate(u, fr, v, f, y, slot, j) == value(
            u.rules[last_rule(u, fr, slot, j)].1,
            rule_names(u, fr),
            seen_in(v, y),
            f,
        ),
    decreases j,
{
    if j > 0 {
        lemma_ruled_step(u, fr, j, slot as int);
        if rule_slot(u.rules[j - 1].0, fr.sn) != Some(slot) {
            lemma_last_rule(u, fr, v, f, y, slot, (j - 1) as nat);
        }
    }
}

/// A world in which the slots of the first rules hold what the last of them for each slot
/// gives.
pub open spec fn ruled_world(
    before: Map<ComponentRefView, real>,
    after: Map<ComponentRefView, real>,
    u: RulesView,
    fr: Frame,
    j: nat,
    results: spec_fn(int) -> real,
) -> bool {
    &&& forall|slot: int|
        0 <= slot < fr.slots ==> #[trigger] after[slot_of(fr.entity, slot)] == (if ruled(
            u,
            fr,
            j,
            slot,
        ) {
            results(last_rule(u, fr, slot as usize, j))
        } else {
            before[slot_of(fr.entity, slot)]
        })
    &&& forall|at: ComponentRefView|
        (forall|slot: int| 0 <= slot < fr.slots ==> at != #[trigger] slot_of(fr.entity, slot))
            ==> #[trigger] after[at] == before[at]
}

proof fn lemma_rule_writes_world(
    u: RulesView,
    fr: Frame,
    j: nat,
    values: Seq<u32>,
    s: Emit,
    results: spec_fn(int) -> real,
    f: Functions,
    m: Machine,
)
    requires
        sound_rules(u, fr),
        j <= u.rules.len(),
        tidy(s, 1),
        has_all(s, 1, values),
        values.len() == resolved(u.rules, u.rules.len(), fr.sn).len(),
        s.out.len() + resolved(u.rules, j, fr.sn).len() + 1 < u32::MAX,
        forall|q: int|
            0 <= q < values.len() ==> held_by(s, #[trigger] values[q], f, m) == results(
                resolved(u.rules, u.rules.len(), fr.sn)[q].1 as int,
            ),
    ensures
        ({
            let found = resolved(u.rules, u.rules.len(), fr.sn);
            let n = resolved(u.rules, j, fr.sn).len();
            let t = rule_writes(found, values, n, fr.entity, s);
            &&& tidy(t, 1)
            &&& after(s, t, 1)
            &&& t.out.len() == s.out.len() + n
            &&& run(t.out, f, m).regs == run(s.out, f, m).regs
            &&& ruled_world(
                run(s.out, f, m).world,
                run(t.out, f, m).world,
                u,
                fr,
                j,
                results,
            )
        }),
    decreases j,
{
    let found = resolved(u.rules, u.rules.len(), fr.sn);
    let n = resolved(u.rules, j, fr.sn).len();
    lemma_resolved_prefix(u, fr, j, u.rules.len());
    lemma_rule_writes(found, values, n, fr.entity, s);
    if j == 0 {
        assert forall|slot: int| 0 <= slot < fr.slots implies !ruled(u, fr, 0, slot) by {
        }
    } else {
        let named = rule_slot(u.rules[j - 1].0, fr.sn);
        assert(plain(u.rules[j - 1].1, rule_names(u, fr)));
        lemma_rule_writes_world(u, fr, (j - 1) as nat, values, s, results, f, m);
        let before = run(s.out, f, m).world;
        if named is None {
            assert forall|slot: int| 0 <= slot < fr.slots implies ruled(u, fr, j, slot) == ruled(
                u,
                fr,
                (j - 1) as nat,
                slot,
            ) by {
                lemma_ruled_step(u, fr, j, slot);
            }
        } else {
            let slot = named->0;
            assert(resolved(u.rules, j, fr.sn)[n - 1] == (slot, (j - 1) as nat));
            assert(found[n - 1] == resolved(u.rules, j, fr.sn)[n - 1]);
            let s1 = rule_writes(found, values, (n - 1) as nat, fr.entity, s);
            let t = rule_writes(found, values, n, fr.entity, s);
            let mid = run(s1.out, f, m).world;
            let r = values[n - 1];
            assert(has(s, 1, r));
            lemma_offset(slot, fr.slots);
            assert(held_by(s, r, f, m) == results(j - 1));
            assert(held_by(s1, r, f, m) == held_by(s, r, f, m));
            assert(run(t.out, f, m).world == mid.insert(
                slot_of(fr.entity, slot as int),
                results(j - 1),
            ) && run(t.out, f, m).regs == run(s1.out, f, m).regs && t.out.len() == s1.out.len()
                + 1) by {
                broadcast use group_follow;

                assert(followed(f, m));
                assert(has(s1, 1, r));
            }
            let done = run(t.out, f, m).world;
            assert forall|x: int| 0 <= x < fr.slots implies #[trigger] done[slot_of(fr.entity, x)]
                == (if ruled(u, fr, j, x) {
                results(last_rule(u, fr, x as usize, j))
            } else {
                before[slot_of(fr.entity, x)]
            }) by {
                lemma_ruled_step(u, fr, j, x);
                assert(slot_of(fr.entity, x).offset == 8 * x);
                assert(slot_of(fr.entity, slot as int).offset == 8 * slot);
                assert(mid[slot_of(fr.entity, x)] == (if ruled(u, fr, (j - 1) as nat, x) {
                    results(last_rule(u, fr, x as usize, (j - 1) as nat))
                } else {
                    before[slot_of(fr.entity, x)]
                }));
            }
            assert forall|at: ComponentRefView|
                (forall|x: int| 0 <= x < fr.slots ==> at != #[trigger] slot_of(
                    fr.entity,
                    x,
                )) implies #[trigger] done[at] == before[at] by {
                assert(at != slot_of(fr.entity, slot as int));
                assert(mid[at] == before[at]);
            }
        }
    }
}

proof fn lemma_found_rules(u: RulesView, fr: Frame, j: nat, q: int)
    requires
        j <= u.rules.len(),
        0 <= q < resolved(u.rules, j, fr.sn).len(),
    ensures
        resolved(u.rules, j, fr.sn)[q].1 < j,
        rule_slot(u.rules[resolved(u.rules, j, fr.sn)[q].1 as int].0, fr.sn) == Some(
            resolved(u.rules, j, fr.sn)[q].0,
        ),
    decreases j,
{
    if j > 0 {
        let before = resolved(u.rules, (j - 1) as nat, fr.sn);
        if q < before.len() {
            lemma_found_rules(u, fr, (j - 1) as nat, q);
        }
    }
}

/// One substep of an `update` system: every slot with a rule grows by the value of its last
/// rule, in the state before the substep, times the length of the substep, where the
/// condition holds. All rules see the same state. A slot without a rule, or without the
/// condition, keeps its value, and nothing else changes.
#[verifier::rlimit(80)]
pub proof fn law_update_substep(
    u: RulesView,
    fr: Frame,
    v: Sight,
    out: Seq<InstructionView>,
    f: Functions,
    m: Machine,
)
    requires
        sound_rules(u, fr),
        u.dyn_rules.len() == 0,
        u.when matches Some(w) ==> plain(w, rule_names(u, fr)),
        tidy(resumed(out), 1),
        knows_frame(fr, resumed(out)),
        frame_shows(v, fr, out, f, m),
        1 + update_substep(u, fr, out).len() < u32::MAX,
    ensures
        ({
            let before = run(out, f, m).world;
            let after = run(update_substep(u, fr, out), f, m).world;
            let y = slots_in(before, fr.entity, fr.slots);
            &&& forall|slot: int|
                0 <= slot < fr.slots ==> #[trigger] after[slot_of(fr.entity, slot)] == (if has_rule(
                    u,
                    fr,
                    slot as usize,
                ) && applies_in(u, fr, v, f, y) {
                    y(slot as usize) + rates(u, fr, v, f, y)(slot as usize) * substep(u)
                } else {
                    before[slot_of(fr.entity, slot)]
                })
            &&& forall|at: ComponentRefView|
                (forall|slot: int|
                    0 <= slot < fr.slots ==> at != #[trigger] slot_of(fr.entity, slot))
                    ==> #[trigger] after[at] == before[at]
        }),
{
    let before = run(out, f, m).world;
    let (o1, regs) = slot_reads(out, fr.entity, fr.slots as nat);
    let c = rule_ctx(u, fr, regs);
    let s0 = resumed(o1);
    assert(lower_stmts(u.lets, u.lets.len(), None, c.parts, s0, Seq::empty()).s == s0);
    let (s1, flag) = flag_of(u.when, c, s0);
    let found = resolved(u.rules, u.rules.len(), fr.sn);
    let (s2, vals) = rule_values(u, found, found.len(), c, flag, s1);
    let s3 = rule_writes(found, vals, found.len(), fr.entity, s2);
    assert(update_substep(u, fr, out) == s3.out);
    lemma_slots(out, fr.entity, fr.slots as nat);
    crate::functions::lemma_frame_stays(fr, resumed(out), s0);
    assert(knows(c, s0, 1));
    lemma_flag(u.when, c, s0);
    lemma_flag_still(u.when, c, s0);
    lemma_knows(c, s0, s1, 1);
    lemma_rule_values(u, found, found.len(), c, flag, s1);
    lemma_writes_len(found, vals, found.len(), fr.entity, s2);
    assert(o1.len() <= s1.out.len() <= s2.out.len() && s2.out.len() + found.len()
        == s3.out.len());
    lemma_slots_read(out, fr.entity, fr.slots as nat, fr.slots, f, m);
    let y = slots_in(before, fr.entity, fr.slots);
    assert(holds_state(o1, regs, y, f, m));
    lemma_frame_shows(v, fr, out, o1, f, m);
    lemma_rule_ctx(u, fr, regs, v, y, o1, f, m);
    let see = seen_in(v, y);
    let set = applies_in(u, fr, v, f, y);
    lemma_flag_value(u, fr, see, c, s0, f, m);
    lemma_shows(see, c, s0, s1, f, m);
    assert forall|q: int| 0 <= q < found.len() implies (#[trigger] found[q]).1 < u.rules.len()
        && plain(u.rules[found[q].1 as int].1, rule_names(u, fr)) by {
        lemma_found_rules(u, fr, u.rules.len(), q);
    }
    lemma_results(u, fr, found, found.len(), c, see, flag, set, s1, f, m);
    lemma_world_stays(s0.out, s1.out, f, m);
    lemma_world_stays(s1.out, s2.out, f, m);
    let results = |rule: int|
        {
            let old = y(rule_slot(u.rules[rule].0, fr.sn)->0);
            if set {
                old + value(u.rules[rule].1, rule_names(u, fr), see, f) * substep(u)
            } else {
                old
            }
        };
    assert forall|q: int| 0 <= q < vals.len() implies held_by(s2, #[trigger] vals[q], f, m)
        == results(found[q].1 as int) by {
        lemma_found_rules(u, fr, u.rules.len(), q);
        assert(held_by(s2, vals[q], f, m) == rule_result(u, fr, see, f, found, q, set));
    }
    lemma_rule_writes_world(u, fr, u.rules.len(), vals, s2, results, f, m);
    let after = run(s3.out, f, m).world;
    assert forall|slot: int| 0 <= slot < fr.slots implies #[trigger] after[slot_of(
        fr.entity,
        slot,
    )] == (if has_rule(u, fr, slot as usize) && set {
        y(slot as usize) + rates(u, fr, v, f, y)(slot as usize) * substep(u)
    } else {
        before[slot_of(fr.entity, slot)]
    }) by {
        lemma_ruled_is_has_rule(u, fr, slot as usize);
        if has_rule(u, fr, slot as usize) {
            lemma_last_rule(u, fr, v, f, y, slot as usize, u.rules.len());
        }
    }
}

proof fn lemma_writes_len(
    found: Seq<(usize, nat)>,
    values: Seq<u32>,
    n: nat,
    entity: u128,
    s: Emit,
)
    requires
        n <= found.len(),
    ensures
        rule_writes(found, values, n, entity, s).out.len() == s.out.len() + n,
    decreases n,
{
    if n > 0 {
        lemma_writes_len(found, values, (n - 1) as nat, entity, s);
    }
}

proof fn lemma_flag_value(
    u: RulesView,
    fr: Frame,
    see: Sight,
    c: CtxView,
    s: Emit,
    f: Functions,
    m: Machine,
)
    requires
        names_of(c) == rule_names(u, fr),
        u.when matches Some(w) ==> plain(w, rule_names(u, fr)),
        tidy(s, 1),
        knows(c, s, 1),
        shows(see, c, s, f, m),
        1 + flag_of(u.when, c, s).0.out.len() < u32::MAX,
    ensures
        ({
            let (t, flag) = flag_of(u.when, c, s);
            (flag matches Some(g) ==> held_by(t, g, f, m) != 0 as real) == (match u.when {
                None => true,
                Some(w) => value(w, rule_names(u, fr), see, f) != 0 as real,
            })
        }),
{
    if let Some(w) = u.when {
        lemma_expr(w, c, s, 1);
        let (s1, r) = lower_expr_spec(w, c, s);
        assert(truthy_of(s1, r).0.out.len() == s1.out.len() + 5);
        lemma_value(w, c, s, see, f, m);
        lemma_truthy_value(s1, r, f, m);
    }
}

} // verus!
