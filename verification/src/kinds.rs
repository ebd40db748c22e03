//! The kinds of systems, each out of its declaration.

use crate::bodies::{
    row_views, DampingSystem, ForceSystem, GravitySystem, GroundContactSystem, IntegrateSystem,
    LinearSystem, NbodySystem, WallSystem,
};
use crate::chan::{ChanOp, ChanSystem};
use crate::checks::{InvariantSystem, WatchSystem};
use crate::decl::{system_decl_views, SystemDecl, SystemDeclView};
use crate::double::{
    below, integer_between, integer_within, integral, is_integral, less_than, saturated, to_u32,
    to_u64, to_usize,
};
use crate::eir::{slot_offset, state_slot, HALF, NEG_INFINITY, ONE, ZERO};
use crate::entity::MAX_STATE_SLOTS;
use crate::expr::{Expr, ExprView, LetStmt};
use crate::fault::{invalid, invalid_at, reject, reject_at, Fault, FaultView};
use crate::fields::{DiffuseSystem, PoissonSystem, WaveSystem, WaveView};
use crate::names::{assoc_get, same, NameMap};
use crate::numbers::{Numbers, NumbersView};
use crate::pools::{DespawnSystem, SpawnSystem, SpawnView};
use crate::program::{system_views, System, SystemView};
use crate::scope::{Layout, Layouts, Scope};
use crate::stmts::{lets_of, to_let_stmts};
use crate::syntax::{expr_text, parse_expr_str};
use crate::systems::{
    build_rk4, build_update, every_of, only_of, optional, param, param_or, parse_every, pool_ids,
    pool_slot_name, read_only, required, rk4_for, scope_of, slot_name, slots_from, system_result,
    update_for, Surroundings, SurroundingsView,
};
use crate::text::{dec_text, decimal_text, joined};
use vstd::prelude::*;
use vstd::string::*;

verus! {

/// Two required parameters, the first one first.
pub open spec fn required2(d: SystemDeclView, a: Seq<char>, b: Seq<char>) -> Result<
    (u64, u64),
    FaultView,
> {
    match required(d, a) {
        Err(f) => Err(f),
        Ok(x) => match required(d, b) {
            Err(f) => Err(f),
            Ok(y) => Ok((x, y)),
        },
    }
}

fn param2(d: &SystemDecl, a: &str, b: &str) -> (r: Result<(u64, u64), Fault>)
    ensures
        required2(d@, a@, b@) == (match r {
            Ok(v) => Ok(v),
            Err(f) => Err(f@),
        }),
{
    match param(d, a) {
        Err(f) => Err(f),
        Ok(x) => match param(d, b) {
            Err(f) => Err(f),
            Ok(y) => Ok((x, y)),
        },
    }
}

/// The bodily systems: gravity, integration, damping, contacts and forces.
pub open spec fn body_for(d: SystemDeclView) -> Option<Result<SystemView, FaultView>> {
    if d.kind == "gravity"@ {
        Some(
            match required2(d, "gravity_y"@, "dt"@) {
                Err(f) => Err(f),
                Ok((gravity_y, dt)) => Ok(SystemView::Gravity(GravitySystem { gravity_y, dt })),
            },
        )
    } else if d.kind == "integrate"@ {
        Some(
            match required(d, "dt"@) {
                Err(f) => Err(f),
                Ok(dt) => Ok(SystemView::Integrate(IntegrateSystem { dt })),
            },
        )
    } else if d.kind == "damping"@ {
        Some(
            match required(d, "factor"@) {
                Err(f) => Err(f),
                Ok(factor) => Ok(SystemView::Damping(DampingSystem { factor })),
            },
        )
    } else if d.kind == "ground_contact"@ {
        Some(
            match required(d, "restitution"@) {
                Err(f) => Err(f),
                Ok(restitution) => Ok(
                    SystemView::GroundContact(GroundContactSystem { restitution }),
                ),
            },
        )
    } else if d.kind == "wall"@ {
        Some(
            match required2(d, "x"@, "z"@) {
                Err(f) => Err(f),
                Ok((x, z)) => Ok(
                    SystemView::Wall(
                        WallSystem {
                            x,
                            z,
                            y_min: optional(d, "y_min"@, NEG_INFINITY),
                            restitution: optional(d, "restitution"@, HALF),
                        },
                    ),
                ),
            },
        )
    } else if d.kind == "force"@ {
        Some(
            match required2(d, "ax"@, "ay"@) {
                Err(f) => Err(f),
                Ok((ax, ay)) => match required2(d, "az"@, "dt"@) {
                    Err(f) => Err(f),
                    Ok((az, dt)) => Ok(SystemView::Force(ForceSystem { ax, ay, az, dt })),
                },
            },
        )
    } else {
        None
    }
}

fn build_body(d: &SystemDecl) -> (r: Option<Result<System, Fault>>)
    ensures
        body_for(d@) == (match r {
            Some(s) => Some(system_result(s)),
            None => None,
        }),
{
    if same(&d.kind, "gravity") {
        Some(
            match param2(d, "gravity_y", "dt") {
                Err(f) => Err(f),
                Ok((gravity_y, dt)) => Ok(System::Gravity(GravitySystem { gravity_y, dt })),
            },
        )
    } else if same(&d.kind, "integrate") {
        Some(
            match param(d, "dt") {
                Err(f) => Err(f),
                Ok(dt) => Ok(System::Integrate(IntegrateSystem { dt })),
            },
        )
    } else if same(&d.kind, "damping") {
        Some(
            match param(d, "factor") {
                Err(f) => Err(f),
                Ok(factor) => Ok(System::Damping(DampingSystem { factor })),
            },
        )
    } else if same(&d.kind, "ground_contact") {
        Some(
            match param(d, "restitution") {
                Err(f) => Err(f),
                Ok(restitution) => Ok(System::GroundContact(GroundContactSystem { restitution })),
            },
        )
    } else if same(&d.kind, "wall") {
        Some(
            match param2(d, "x", "z") {
                Err(f) => Err(f),
                Ok((x, z)) => Ok(
                    System::Wall(
                        WallSystem {
                            x,
                            z,
                            y_min: param_or(d, "y_min", NEG_INFINITY),
                            restitution: param_or(d, "restitution", HALF),
                        },
                    ),
                ),
            },
        )
    } else if same(&d.kind, "force") {
        Some(
            match param2(d, "ax", "ay") {
                Err(f) => Err(f),
                Ok((ax, ay)) => match param2(d, "az", "dt") {
                    Err(f) => Err(f),
                    Ok((az, dt)) => Ok(System::Force(ForceSystem { ax, ay, az, dt })),
                },
            },
        )
    } else {
        None
    }
}

/// The name of a row of coefficients.
pub open spec fn row_name(i: nat) -> Seq<char> {
    "row"@ + dec_text(i)
}

/// The first `k` rows of a linear system, each with one coefficient per slot and a
/// constant.
pub open spec fn rows_of(d: SystemDeclView, slots: usize, k: nat) -> Result<
    Seq<Seq<u64>>,
    FaultView,
>
    decreases k,
{
    if k == 0 {
        Ok(Seq::empty())
    } else {
        match rows_of(d, slots, (k - 1) as nat) {
            Err(f) => Err(f),
            Ok(rows) => match assoc_get(d.vec_params, row_name((k - 1) as nat)) {
                None => Err(invalid(53)),
                Some(row) => if row.len() != slots + 1 {
                    Err(invalid(54))
                } else {
                    Ok(rows.push(row))
                },
            },
        }
    }
}

/// The linear system of a declaration.
pub open spec fn linear_for(d: SystemDeclView) -> Result<SystemView, FaultView> {
    match required(d, "slots"@) {
        Err(f) => Err(f),
        Ok(v) => {
            let slots = saturated(v, usize::MAX as nat) as usize;
            if slots == 0 || slots > MAX_STATE_SLOTS {
                Err(invalid(52))
            } else {
                match rows_of(d, slots, slots as nat) {
                    Err(f) => Err(f),
                    Ok(rows) => match required(d, "dt"@) {
                        Err(f) => Err(f),
                        Ok(dt) => Ok(SystemView::Linear { rows, slots, dt }),
                    },
                }
            }
        },
    }
}

proof fn lemma_rows_fail(d: SystemDeclView, slots: usize, k: nat, m: nat, f: FaultView)
    requires
        k <= m,
        rows_of(d, slots, k) == Err::<Seq<Seq<u64>>, FaultView>(f),
    ensures
        rows_of(d, slots, m) == Err::<Seq<Seq<u64>>, FaultView>(f),
    decreases m - k,
{
    if k < m {
        lemma_rows_fail(d, slots, k + 1, m, f);
    }
}

fn copy_row(row: &Vec<u64>) -> (r: Vec<u64>)
    ensures
        r@ == row@,
{
    let r: Vec<u64> = row.clone();
    proof {
        assert(r@ =~= row@);
    }
    r
}

fn read_rows(d: &SystemDecl, slots: usize) -> (r: Result<Vec<Vec<u64>>, Fault>)
    requires
        slots <= MAX_STATE_SLOTS,
    ensures
        rows_of(d@, slots, slots as nat) == (match r {
            Ok(rows) => Ok(row_views(rows@)),
            Err(f) => Err(f@),
        }),
{
    let mut rows: Vec<Vec<u64>> = Vec::new();
    proof {
        assert(row_views(rows@) =~= Seq::<Seq<u64>>::empty());
    }
    let mut i: usize = 0;
    while i < slots
        invariant
            i <= slots <= MAX_STATE_SLOTS,
            rows_of(d@, slots, i as nat) == Ok::<Seq<Seq<u64>>, FaultView>(row_views(rows@)),
        decreases slots - i,
    {
        let name: String = joined("row", &decimal_text(i as u64));
        match d.vec_params.get(&name) {
            None => {
                let f: Fault = reject(53);
                proof {
                    lemma_rows_fail(d@, slots, (i + 1) as nat, slots as nat, f@);
                }
                return Err(f);
            },
            Some(row) => {
                if row.len() != slots + 1 {
                    let f: Fault = reject(54);
                    proof {
                        lemma_rows_fail(d@, slots, (i + 1) as nat, slots as nat, f@);
                    }
                    return Err(f);
                }
                let ghost before = row_views(rows@);
                rows.push(copy_row(row));
                proof {
                    assert(row_views(rows@) =~= before.push(row@));
                }
            },
        }
        i = i + 1;
    }
    Ok(rows)
}

fn build_linear(d: &SystemDecl) -> (r: Result<System, Fault>)
    ensures
        system_result(r) == linear_for(d@),
{
    let slots: usize = match param(d, "slots") {
        Ok(v) => to_usize(v),
        Err(f) => return Err(f),
    };
    if slots == 0 || slots > MAX_STATE_SLOTS {
        return Err(reject(52));
    }
    match read_rows(d, slots) {
        Err(f) => Err(f),
        Ok(rows) => match param(d, "dt") {
            Err(f) => Err(f),
            Ok(dt) => Ok(System::Linear(LinearSystem { rows, slots, dt })),
        },
    }
}

/// The mutual attraction of a declaration.
pub open spec fn nbody_for(env: SurroundingsView, d: SystemDeclView) -> Result<
    SystemView,
    FaultView,
> {
    if env.nbody_bodies.len() == 0 {
        Err(invalid(63))
    } else {
        match required2(d, "G"@, "dt"@) {
            Err(f) => Err(f),
            Ok((g, dt)) => Ok(SystemView::Nbody { bodies: env.nbody_bodies, g, dt }),
        }
    }
}

fn copy_ids(ids: &Vec<u128>) -> (r: Vec<u128>)
    ensures
        r@ == ids@,
{
    let r: Vec<u128> = ids.clone();
    proof {
        assert(r@ =~= ids@);
    }
    r
}

fn build_nbody(env: &Surroundings, d: &SystemDecl) -> (r: Result<System, Fault>)
    ensures
        system_result(r) == nbody_for(env@, d@),
{
    if env.nbody_bodies.len() == 0 {
        return Err(reject(63));
    }
    match param2(d, "G", "dt") {
        Err(f) => Err(f),
        Ok((g, dt)) => Ok(
            System::Nbody(NbodySystem { bodies: copy_ids(env.nbody_bodies), g, dt }),
        ),
    }
}

/// The named slots that a sent expression may use: those of the first entity that has
/// any.
pub open spec fn first_layout(layouts: Seq<(u128, Layout)>) -> Layout {
    if layouts.len() == 0 {
        Seq::empty()
    } else {
        layouts[0].1
    }
}

/// The expression that is sent: a rule, or a number.
pub open spec fn sent_value(n: NumbersView, d: SystemDeclView) -> Result<ExprView, FaultView> {
    match assoc_get(d.update, "value"@) {
        Some(text) => expr_text(n, text),
        None => match required(d, "value"@) {
            Ok(v) => Ok(ExprView::Const(v)),
            Err(f) => Err(f),
        },
    }
}

/// The channel system of a declaration.
pub open spec fn chan_for(n: NumbersView, env: SurroundingsView, d: SystemDeclView) -> Result<
    SystemView,
    FaultView,
> {
    match assoc_get(d.string_params, "chan"@) {
        None => Err(invalid(62)),
        Some(name) => match assoc_get(env.scope.entity_map, name) {
            None => Err(invalid(62)),
            Some(channel) => if d.kind == "send"@ {
                match sent_value(n, d) {
                    Err(f) => Err(f),
                    Ok(value) => Ok(
                        SystemView::Send {
                            channel,
                            value: Some(value),
                            slots: MAX_STATE_SLOTS,
                            scope: scope_of(env, d),
                            state_names: first_layout(env.scope.state_names_by_id),
                        },
                    ),
                }
            } else {
                match required(d, "slot"@) {
                    Err(f) => Err(f),
                    Ok(v) => {
                        let slot = saturated(v, usize::MAX as nat) as usize;
                        if slot >= MAX_STATE_SLOTS {
                            Err(invalid(52))
                        } else {
                            Ok(SystemView::Recv { channel, slot, slots: MAX_STATE_SLOTS })
                        }
                    },
                }
            },
        },
    }
}

fn read_first_layout(layouts: &Layouts) -> (r: NameMap<usize>)
    ensures
        r@ == first_layout(layouts@),
{
    if layouts.entries.len() == 0 {
        NameMap::new()
    } else {
        layouts.entries[0].1.duplicate()
    }
}

fn read_sent_value(numbers: &Numbers, d: &SystemDecl) -> (r: Result<Expr, Fault>)
    ensures
        sent_value(numbers@, d@) == (match r {
            Ok(e) => Ok(e@),
            Err(f) => Err(f@),
        }),
{
    match d.update.get("value") {
        Some(text) => parse_expr_str(numbers, text),
        None => match param(d, "value") {
            Ok(v) => Ok(Expr::Const(v)),
            Err(f) => Err(f),
        },
    }
}

fn build_chan(numbers: &Numbers, env: &Surroundings, d: &SystemDecl) -> (r: Result<System, Fault>)
    ensures
        system_result(r) == chan_for(numbers@, env@, d@),
{
    let channel: u128 = match d.string_params.get("chan") {
        None => return Err(reject(62)),
        Some(name) => match env.scope.entity_map.get(name) {
            None => return Err(reject(62)),
            Some(id) => *id,
        },
    };
    let send: bool = same(&d.kind, "send");
    let mut value: Option<Expr> = None;
    let mut slot: usize = 0;
    if send {
        match read_sent_value(numbers, d) {
            Ok(e) => {
                value = Some(e);
            },
            Err(f) => return Err(f),
        }
    } else {
        match param(d, "slot") {
            Ok(v) => {
                slot = to_usize(v);
            },
            Err(f) => return Err(f),
        }
        if slot >= MAX_STATE_SLOTS {
            return Err(reject(52));
        }
    }
    let scope: Scope = env.scope.within(&d.namespace);
    Ok(
        System::Chan(
            ChanSystem {
                op: if send {
                    ChanOp::Send
                } else {
                    ChanOp::Recv
                },
                channel_entity: channel,
                value,
                slot,
                slots: MAX_STATE_SLOTS,
                scope,
                state_names: read_first_layout(&env.scope.state_names_by_id),
            },
        ),
    )
}

/// The observed expression of an invariant or a watch.
pub open spec fn observed_expr(n: NumbersView, d: SystemDeclView) -> Result<ExprView, FaultView> {
    match assoc_get(d.update, "expr"@) {
        None => Err(
            invalid_at(48, d.byte_offset, d.kind + " is missing required parameter 'expr'"@),
        ),
        Some(text) => expr_text(n, text),
    }
}

fn read_observed(numbers: &Numbers, d: &SystemDecl) -> (r: Result<Expr, Fault>)
    ensures
        observed_expr(numbers@, d@) == (match r {
            Ok(e) => Ok(e@),
            Err(f) => Err(f@),
        }),
{
    match d.update.get("expr") {
        None => Err(
            reject_at(
                48,
                d.byte_offset,
                joined(&d.kind, " is missing required parameter 'expr'"),
            ),
        ),
        Some(text) => parse_expr_str(numbers, text),
    }
}

/// The invariant of a declaration. Each has a verdict of its own, in source order.
pub open spec fn invariant_for(
    n: NumbersView,
    env: SurroundingsView,
    d: SystemDeclView,
    before: usize,
) -> Result<SystemView, FaultView> {
    match observed_expr(n, d) {
        Err(f) => Err(f),
        Ok(expr) => match lets_of(n, d.update_stmts, d.update_stmts.len()) {
            Err(f) => Err(f),
            Ok(lets) => match only_of(env, d) {
                Err(f) => Err(f),
                Ok(only) => Ok(
                    SystemView::Invariant {
                        expr,
                        lets,
                        check_offset: slot_offset(before),
                        only,
                        scope: scope_of(env, d),
                    },
                ),
            },
        },
    }
}

fn build_invariant(
    numbers: &Numbers,
    env: &Surroundings,
    d: &SystemDecl,
    before: usize,
) -> (r: Result<System, Fault>)
    ensures
        system_result(r) == invariant_for(numbers@, env@, d@, before),
{
    let expr: Expr = match read_observed(numbers, d) {
        Ok(e) => e,
        Err(f) => return Err(f),
    };
    let lets: Vec<LetStmt> = match to_let_stmts(numbers, &d.update_stmts) {
        Ok(l) => l,
        Err(f) => return Err(f),
    };
    match read_only(env, d) {
        Err(f) => Err(f),
        Ok(only) => Ok(
            System::Invariant(
                InvariantSystem {
                    expr,
                    lets,
                    check_offset: state_slot(before),
                    only,
                    scope: env.scope.within(&d.namespace),
                },
            ),
        ),
    }
}

/// The watch of a declaration.
pub open spec fn watch_for(n: NumbersView, env: SurroundingsView, d: SystemDeclView) -> Result<
    SystemView,
    FaultView,
> {
    match observed_expr(n, d) {
        Err(f) => Err(f),
        Ok(expr) => match required2(d, "mem"@, "into"@) {
            Err(f) => Err(f),
            Ok((m, i)) => {
                let mem = saturated(m, usize::MAX as nat) as usize;
                let into = saturated(i, usize::MAX as nat) as usize;
                if mem >= MAX_STATE_SLOTS || into >= MAX_STATE_SLOTS {
                    Err(invalid(52))
                } else {
                    match only_of(env, d) {
                        Err(f) => Err(f),
                        Ok(only) => Ok(
                            SystemView::Watch { expr, mem, into, only, scope: scope_of(env, d) },
                        ),
                    }
                }
            },
        },
    }
}

fn build_watch(numbers: &Numbers, env: &Surroundings, d: &SystemDecl) -> (r: Result<System, Fault>)
    ensures
        system_result(r) == watch_for(numbers@, env@, d@),
{
    let expr: Expr = match read_observed(numbers, d) {
        Ok(e) => e,
        Err(f) => return Err(f),
    };
    let (m, i): (u64, u64) = match param2(d, "mem", "into") {
        Ok(v) => v,
        Err(f) => return Err(f),
    };
    let mem: usize = to_usize(m);
    let into: usize = to_usize(i);
    if mem >= MAX_STATE_SLOTS || into >= MAX_STATE_SLOTS {
        return Err(reject(52));
    }
    match read_only(env, d) {
        Err(f) => Err(f),
        Ok(only) => Ok(
            System::Watch(
                WatchSystem { expr, mem, into, only, scope: env.scope.within(&d.namespace) },
            ),
        ),
    }
}

/// The field that a solver works on, with its sizes.
pub open spec fn field_named(env: SurroundingsView, d: SystemDeclView) -> Result<
    (Seq<char>, (u32, u32, u32, u64)),
    FaultView,
> {
    match assoc_get(d.string_params, "field"@) {
        None => Err(invalid(62)),
        Some(name) => match assoc_get(env.field_info, name) {
            None => Err(invalid(62)),
            Some(info) => Ok((name, info)),
        },
    }
}

/// The entity whose function carries a solver.
pub open spec fn carrier(env: SurroundingsView) -> u128 {
    if env.dynamic.len() == 0 {
        0
    } else {
        env.dynamic[0]
    }
}

fn read_field(env: &Surroundings, d: &SystemDecl) -> (r: Result<
    (String, (u32, u32, u32, u64)),
    Fault,
>)
    ensures
        field_named(env@, d@) == (match r {
            Ok((name, info)) => Ok((name@, info)),
            Err(f) => Err(f@),
        }),
{
    match d.string_params.get("field") {
        None => Err(reject(62)),
        Some(name) => match env.field_info.get(name) {
            None => Err(reject(62)),
            Some(info) => Ok((name.clone(), *info)),
        },
    }
}

fn read_carrier(env: &Surroundings) -> (r: u128)
    ensures
        r == carrier(env@),
{
    if env.dynamic.len() == 0 {
        0
    } else {
        env.dynamic[0]
    }
}

/// The diffusion of a declaration.
pub open spec fn diffuse_for(env: SurroundingsView, d: SystemDeclView) -> Result<
    SystemView,
    FaultView,
> {
    match field_named(env, d) {
        Err(f) => Err(f),
        Ok((field, (width, height, depth, _))) => match required(d, "rate"@) {
            Err(f) => Err(f),
            Ok(rate) => Ok(
                SystemView::Diffuse { field, rate, width, height, depth, run_on: carrier(env) },
            ),
        },
    }
}

fn build_diffuse(env: &Surroundings, d: &SystemDecl) -> (r: Result<System, Fault>)
    ensures
        system_result(r) == diffuse_for(env@, d@),
{
    match read_field(env, d) {
        Err(f) => Err(f),
        Ok((field, info)) => match param(d, "rate") {
            Err(f) => Err(f),
            Ok(rate) => Ok(
                System::Diffuse(
                    DiffuseSystem {
                        field,
                        rate,
                        width: info.0,
                        height: info.1,
                        depth: info.2,
                        run_on: read_carrier(env),
                    },
                ),
            ),
        },
    }
}

/// The Poisson solver of a declaration.
pub open spec fn poisson_for(env: SurroundingsView, d: SystemDeclView) -> Result<
    SystemView,
    FaultView,
> {
    match field_named(env, d) {
        Err(f) => Err(f),
        Ok((field, (width, height, depth, dx))) => {
            let source = assoc_get(d.string_params, "source"@);
            if source is Some && assoc_get(env.field_info, source->0) is None {
                Err(invalid(62))
            } else {
                match required(d, "iters"@) {
                    Err(f) => Err(f),
                    Ok(iters) => Ok(
                        SystemView::Poisson {
                            field,
                            source,
                            iters: saturated(iters, u32::MAX as nat) as u32,
                            scale: optional(d, "scale"@, ONE),
                            width,
                            height,
                            depth,
                            dx,
                            run_on: carrier(env),
                        },
                    ),
                }
            }
        },
    }
}

fn build_poisson(env: &Surroundings, d: &SystemDecl) -> (r: Result<System, Fault>)
    ensures
        system_result(r) == poisson_for(env@, d@),
{
    let (field, info): (String, (u32, u32, u32, u64)) = match read_field(env, d) {
        Ok(v) => v,
        Err(f) => return Err(f),
    };
    let source: Option<String> = match d.string_params.get("source") {
        None => None,
        Some(name) => {
            if !env.field_info.has(name) {
                return Err(reject(62));
            }
            Some(name.clone())
        },
    };
    match param(d, "iters") {
        Err(f) => Err(f),
        Ok(iters) => Ok(
            System::Poisson(
                PoissonSystem {
                    field,
                    source,
                    iters: to_u32(iters),
                    scale: param_or(d, "scale", ONE),
                    width: info.0,
                    height: info.1,
                    depth: info.2,
                    dx: info.3,
                    run_on: read_carrier(env),
                },
            ),
        ),
    }
}

/// The wave solver of a declaration.
pub open spec fn wave_for(env: SurroundingsView, d: SystemDeclView) -> Result<
    SystemView,
    FaultView,
> {
    match assoc_get(d.string_params, "prev"@) {
        None => Err(invalid(62)),
        Some(prev) => match field_named(env, d) {
            Err(f) => Err(f),
            Ok((field, (width, height, depth, dx))) => if assoc_get(env.field_info, prev) is None {
                Err(invalid(62))
            } else {
                match required2(d, "velocity"@, "dt"@) {
                    Err(f) => Err(f),
                    Ok((velocity, dt)) => Ok(
                        SystemView::Wave(
                            WaveView {
                                field,
                                prev,
                                velocity,
                                dt,
                                damping: optional(d, "damping"@, ONE),
                                absorb: optional(d, "absorb"@, ZERO),
                                absorb_width: saturated(
                                    optional(d, "absorb_width"@, ZERO),
                                    u32::MAX as nat,
                                ) as u32,
                                width,
                                height,
                                depth,
                                dx,
                                run_on: carrier(env),
                            },
                        ),
                    ),
                }
            },
        },
    }
}

fn build_wave(env: &Surroundings, d: &SystemDecl) -> (r: Result<System, Fault>)
    ensures
        system_result(r) == wave_for(env@, d@),
{
    let prev: String = match d.string_params.get("prev") {
        None => return Err(reject(62)),
        Some(name) => name.clone(),
    };
    let (field, info): (String, (u32, u32, u32, u64)) = match read_field(env, d) {
        Ok(v) => v,
        Err(f) => return Err(f),
    };
    if !env.field_info.has(&prev) {
        return Err(reject(62));
    }
    match param2(d, "velocity", "dt") {
        Err(f) => Err(f),
        Ok((velocity, dt)) => Ok(
            System::Wave(
                WaveSystem {
                    field,
                    prev,
                    velocity,
                    dt,
                    damping: param_or(d, "damping", ONE),
                    absorb: param_or(d, "absorb", ZERO),
                    absorb_width: to_u32(param_or(d, "absorb_width", ZERO)),
                    width: info.0,
                    height: info.1,
                    depth: info.2,
                    dx: info.3,
                    run_on: read_carrier(env),
                },
            ),
        ),
    }
}

/// The 32-bit limbs of an id, lowest first.
pub open spec fn limbs_of(id: u128) -> Seq<u32> {
    seq![
        (id % 0x1_0000_0000) as u32,
        ((id / 0x1_0000_0000) % 0x1_0000_0000) as u32,
        ((id / 0x1_0000_0000_0000_0000) % 0x1_0000_0000) as u32,
        ((id / 0x1_0000_0000_0000_0000_0000_0000) % 0x1_0000_0000) as u32,
    ]
}

/// Splits an id into limbs.
pub fn u128_limbs(id: u128) -> (r: [u32; 4])
    ensures
        r@ == limbs_of(id),
{
    let r: [u32; 4] = [
        (id % 0x1_0000_0000) as u32,
        ((id / 0x1_0000_0000) % 0x1_0000_0000) as u32,
        ((id / 0x1_0000_0000_0000_0000) % 0x1_0000_0000) as u32,
        ((id / 0x1_0000_0000_0000_0000_0000_0000) % 0x1_0000_0000) as u32,
    ];
    proof {
        assert(r@ =~= limbs_of(id));
    }
    r
}

/// How many slots a spawner activates at once.
pub open spec fn batch_of(d: SystemDeclView) -> Result<u32, FaultView> {
    match assoc_get(d.params, "count"@) {
        None => Ok(1),
        Some(v) => match integer_within(v, 1, 1024) {
            Some(n) => Ok(n as u32),
            None => Err(
                invalid_at(48, d.byte_offset, "spawn `count` must be an integer in 1..=1024"@),
            ),
        },
    }
}

/// On which steps within its period a spawner emits.
pub open spec fn phase_of(d: SystemDeclView) -> Result<u64, FaultView> {
    match assoc_get(d.params, "phase"@) {
        None => Ok(0),
        Some(v) => if integral(v) && !below(v, ZERO) {
            Ok(saturated(v, u64::MAX as nat) as u64)
        } else {
            Err(invalid_at(48, d.byte_offset, "spawn `phase` must be a non-negative integer"@))
        },
    }
}

fn read_batch(d: &SystemDecl) -> (r: Result<u32, Fault>)
    ensures
        batch_of(d@) == (match r {
            Ok(v) => Ok(v),
            Err(f) => Err(f@),
        }),
{
    match d.params.get("count") {
        None => Ok(1),
        Some(v) => match integer_between(*v, 1, 1024) {
            Some(n) => Ok(n as u32),
            None => Err(
                reject_at(
                    48,
                    d.byte_offset,
                    "spawn `count` must be an integer in 1..=1024".to_owned(),
                ),
            ),
        },
    }
}

fn read_phase(d: &SystemDecl) -> (r: Result<u64, Fault>)
    ensures
        phase_of(d@) == (match r {
            Ok(v) => Ok(v),
            Err(f) => Err(f@),
        }),
{
    match d.params.get("phase") {
        None => Ok(0),
        Some(v) => {
            if is_integral(*v) && !less_than(*v, ZERO) {
                Ok(to_u64(*v))
            } else {
                Err(
                    reject_at(
                        48,
                        d.byte_offset,
                        "spawn `phase` must be a non-negative integer".to_owned(),
                    ),
                )
            }
        },
    }
}

/// The pool that a spawner draws from: the caller, the first slot, and the number of
/// slots.
pub open spec fn spawn_target(env: SurroundingsView, d: SystemDeclView) -> Result<
    (u128, u128, u32),
    FaultView,
> {
    match assoc_get(d.string_params, "on"@) {
        None => Err(invalid_at(48, d.byte_offset, "spawn requires `on = <entity>`"@)),
        Some(name) => match assoc_get(env.scope.entity_map, name) {
            None => Err(invalid(62)),
            Some(caller) => match assoc_get(d.string_params, "pool"@) {
                None => Err(invalid_at(48, d.byte_offset, "spawn requires `pool = <name>`"@)),
                Some(pool) => match assoc_get(env.scope.entity_map, slot_name(pool, 0)) {
                    None => Err(
                        invalid_at(
                            78,
                            d.byte_offset,
                            "spawn references unknown pool '"@ + pool + "'"@,
                        ),
                    ),
                    Some(base) => Ok(
                        (
                            caller,
                            base,
                            slots_from(env.scope.entity_map, pool, 0).len() as u32,
                        ),
                    ),
                },
            },
        },
    }
}

fn read_spawn_target(env: &Surroundings, d: &SystemDecl) -> (r: Result<(u128, u128, u32), Fault>)
    ensures
        spawn_target(env@, d@) == (match r {
            Ok(v) => Ok(v),
            Err(f) => Err(f@),
        }),
{
    let caller: u128 = match d.string_params.get("on") {
        None => return Err(
            reject_at(48, d.byte_offset, "spawn requires `on = <entity>`".to_owned()),
        ),
        Some(name) => match env.scope.entity_map.get(name) {
            None => return Err(reject(62)),
            Some(id) => *id,
        },
    };
    let pool: &String = match d.string_params.get("pool") {
        None => return Err(
            reject_at(48, d.byte_offset, "spawn requires `pool = <name>`".to_owned()),
        ),
        Some(name) => name,
    };
    match env.scope.entity_map.get(&pool_slot_name(pool, 0)) {
        None => {
            let head: String = joined("spawn references unknown pool '", pool);
            Err(reject_at(78, d.byte_offset, joined(&head, "'")))
        },
        Some(base) => {
            let slots: Vec<u128> = pool_ids(&env.scope.entity_map, pool);
            Ok((caller, *base, slots.len() as u32))
        },
    }
}

/// The spawner of a declaration.
pub open spec fn spawn_for(env: SurroundingsView, d: SystemDeclView) -> Result<
    SystemView,
    FaultView,
> {
    match spawn_target(env, d) {
        Err(f) => Err(f),
        Ok((on, base, count)) => match batch_of(d) {
            Err(f) => Err(f),
            Ok(per_step) => match every_of(d) {
                Err(f) => Err(f),
                Ok(every) => match phase_of(d) {
                    Err(f) => Err(f),
                    Ok(phase) => Ok(
                        SystemView::Spawn(
                            SpawnView {
                                on,
                                base,
                                count,
                                limbs: limbs_of(base),
                                per_step,
                                every,
                                phase,
                            },
                        ),
                    ),
                },
            },
        },
    }
}

fn build_spawn(env: &Surroundings, d: &SystemDecl) -> (r: Result<System, Fault>)
    ensures
        system_result(r) == spawn_for(env@, d@),
{
    let (on, base, count): (u128, u128, u32) = match read_spawn_target(env, d) {
        Ok(v) => v,
        Err(f) => return Err(f),
    };
    let per_step: u32 = match read_batch(d) {
        Ok(v) => v,
        Err(f) => return Err(f),
    };
    let every: Option<u64> = match parse_every(d) {
        Ok(v) => v,
        Err(f) => return Err(f),
    };
    let phase: u64 = match read_phase(d) {
        Ok(v) => v,
        Err(f) => return Err(f),
    };
    Ok(
        System::Spawn(
            SpawnSystem { on, base, count, limbs: u128_limbs(base), per_step, every, phase },
        ),
    )
}

/// The release of a declaration.
pub open spec fn despawn_for(n: NumbersView, env: SurroundingsView, d: SystemDeclView) -> Result<
    SystemView,
    FaultView,
> {
    match assoc_get(d.string_params, "on"@) {
        None => Err(invalid_at(48, d.byte_offset, "despawn requires `on = <pool>`"@)),
        Some(pool) => {
            let slots = slots_from(env.scope.entity_map, pool, 0);
            if slots.len() == 0 {
                Err(
                    invalid_at(
                        78,
                        d.byte_offset,
                        "despawn references unknown pool '"@ + pool + "'"@,
                    ),
                )
            } else {
                match assoc_get(d.string_params, "when"@) {
                    None => Err(
                        invalid_at(48, d.byte_offset, "despawn requires `when = <expr>`"@),
                    ),
                    Some(text) => match expr_text(n, text) {
                        Err(f) => Err(f),
                        Ok(when) => Ok(
                            SystemView::Despawn {
                                pool_slots: slots,
                                when,
                                scope: scope_of(env, d),
                            },
                        ),
                    },
                }
            }
        },
    }
}

fn build_despawn(numbers: &Numbers, env: &Surroundings, d: &SystemDecl) -> (r: Result<
    System,
    Fault,
>)
    ensures
        system_result(r) == despawn_for(numbers@, env@, d@),
{
    let pool: &String = match d.string_params.get("on") {
        None => return Err(
            reject_at(48, d.byte_offset, "despawn requires `on = <pool>`".to_owned()),
        ),
        Some(name) => name,
    };
    let pool_slots: Vec<u128> = pool_ids(&env.scope.entity_map, pool);
    if pool_slots.len() == 0 {
        let head: String = joined("despawn references unknown pool '", pool);
        return Err(reject_at(78, d.byte_offset, joined(&head, "'")));
    }
    match d.string_params.get("when") {
        None => Err(reject_at(48, d.byte_offset, "despawn requires `when = <expr>`".to_owned())),
        Some(text) => match parse_expr_str(numbers, text) {
            Err(f) => Err(f),
            Ok(when) => Ok(
                System::Despawn(
                    DespawnSystem { pool_slots, when, scope: env.scope.within(&d.namespace) },
                ),
            ),
        },
    }
}

/// The system of a declaration, with the number of invariants before it.
#[verifier::opaque]
pub open spec fn system_for(
    n: NumbersView,
    env: SurroundingsView,
    d: SystemDeclView,
    before: usize,
) -> Result<SystemView, FaultView> {
    match body_for(d) {
        Some(r) => r,
        None => if d.kind == "linear"@ {
            linear_for(d)
        } else if d.kind == "nbody"@ {
            nbody_for(env, d)
        } else if d.kind == "send"@ || d.kind == "recv"@ {
            chan_for(n, env, d)
        } else if d.kind == "update"@ {
            update_for(n, env, d)
        } else if d.kind == "rk4"@ {
            rk4_for(n, env, d)
        } else if d.kind == "invariant"@ {
            invariant_for(n, env, d, before)
        } else if d.kind == "watch"@ {
            watch_for(n, env, d)
        } else if d.kind == "diffuse"@ {
            diffuse_for(env, d)
        } else if d.kind == "poisson"@ {
            poisson_for(env, d)
        } else if d.kind == "wave"@ {
            wave_for(env, d)
        } else if d.kind == "spawn"@ {
            spawn_for(env, d)
        } else if d.kind == "despawn"@ {
            despawn_for(n, env, d)
        } else {
            Err(invalid(49))
        },
    }
}

/// Builds the system of a declaration.
pub fn build_system_kind(
    numbers: &Numbers,
    env: &Surroundings,
    d: &SystemDecl,
    before: usize,
) -> (r: Result<System, Fault>)
    ensures
        system_result(r) == system_for(numbers@, env@, d@, before),
{
    proof {
        reveal(system_for);
    }
    if let Some(r) = build_body(d) {
        return r;
    }
    if same(&d.kind, "linear") {
        build_linear(d)
    } else if same(&d.kind, "nbody") {
        build_nbody(env, d)
    } else if same(&d.kind, "send") || same(&d.kind, "recv") {
        build_chan(numbers, env, d)
    } else if same(&d.kind, "update") {
        build_update(numbers, env, d)
    } else if same(&d.kind, "rk4") {
        build_rk4(numbers, env, d)
    } else if same(&d.kind, "invariant") {
        build_invariant(numbers, env, d, before)
    } else if same(&d.kind, "watch") {
        build_watch(numbers, env, d)
    } else if same(&d.kind, "diffuse") {
        build_diffuse(env, d)
    } else if same(&d.kind, "poisson") {
        build_poisson(env, d)
    } else if same(&d.kind, "wave") {
        build_wave(env, d)
    } else if same(&d.kind, "spawn") {
        build_spawn(env, d)
    } else if same(&d.kind, "despawn") {
        build_despawn(numbers, env, d)
    } else {
        Err(reject(49))
    }
}

/// The number of invariants among the first `k` declarations.
pub open spec fn invariants_before(s: Seq<SystemDeclView>, k: nat) -> nat
    decreases k,
{
    if k == 0 || k > s.len() {
        0
    } else if s[k - 1].kind == "invariant"@ {
        invariants_before(s, (k - 1) as nat) + 1
    } else {
        invariants_before(s, (k - 1) as nat)
    }
}

/// The systems of the first `k` declarations.
pub open spec fn systems_for(
    n: NumbersView,
    env: SurroundingsView,
    s: Seq<SystemDeclView>,
    k: nat,
) -> Result<Seq<SystemView>, FaultView>
    decreases k,
{
    if k == 0 || k > s.len() {
        Ok(Seq::empty())
    } else {
        match systems_for(n, env, s, (k - 1) as nat) {
            Err(f) => Err(f),
            Ok(systems) => match system_for(
                n,
                env,
                s[k - 1],
                invariants_before(s, (k - 1) as nat) as usize,
            ) {
                Err(f) => Err(f),
                Ok(x) => Ok(systems.push(x)),
            },
        }
    }
}

proof fn lemma_systems_fail(
    n: NumbersView,
    env: SurroundingsView,
    s: Seq<SystemDeclView>,
    k: nat,
    f: FaultView,
)
    requires
        0 < k <= s.len(),
        systems_for(n, env, s, k) == Err::<Seq<SystemView>, FaultView>(f),
    ensures
        systems_for(n, env, s, s.len()) == Err::<Seq<SystemView>, FaultView>(f),
    decreases s.len() - k,
{
    if k < s.len() {
        lemma_systems_fail(n, env, s, k + 1, f);
    }
}

proof fn lemma_invariant_count(s: Seq<SystemDeclView>, k: nat)
    ensures
        invariants_before(s, k) <= k,
    decreases k,
{
    if k > 0 {
        lemma_invariant_count(s, (k - 1) as nat);
    }
}

/// Builds the systems of a program from their declarations.
pub fn build_systems(numbers: &Numbers, systems: &Vec<SystemDecl>, env: &Surroundings) -> (r: Result<
    Vec<System>,
    Fault,
>)
    ensures
        systems_for(numbers@, env@, system_decl_views(systems@), systems@.len()) == (match r {
            Ok(s) => Ok(system_views(s@)),
            Err(f) => Err(f@),
        }),
{
    let ghost decls = system_decl_views(systems@);
    let mut out: Vec<System> = Vec::new();
    proof {
        assert(system_views(out@) =~= Seq::<SystemView>::empty());
    }
    let mut invariants: usize = 0;
    let mut k: usize = 0;
    while k < systems.len()
        invariant
            k <= systems.len(),
            decls == system_decl_views(systems@),
            invariants == invariants_before(decls, k as nat),
            systems_for(numbers@, env@, decls, k as nat) == Ok::<Seq<SystemView>, FaultView>(
                system_views(out@),
            ),
        decreases systems.len() - k,
    {
        let d: &SystemDecl = &systems[k];
        proof {
            assert(decls[k as int] == d@);
            lemma_invariant_count(decls, k as nat);
        }
        match build_system_kind(numbers, env, d, invariants) {
            Ok(s) => {
                let ghost before = system_views(out@);
                out.push(s);
                proof {
                    assert(system_views(out@) =~= before.push(s@));
                }
            },
            Err(f) => {
                proof {
                    lemma_systems_fail(numbers@, env@, decls, (k + 1) as nat, f@);
                }
                return Err(f);
            },
        }
        if same(&d.kind, "invariant") {
            invariants = invariants + 1;
        }
        k = k + 1;
    }
    Ok(out)
}

/// The limbs of an id make up the id again, each worth so many of the one before.
pub proof fn law_limbs_make_the_id(id: u128)
    ensures
        limbs_of(id).len() == 4,
        id == limbs_of(id)[0] + 0x1_0000_0000 * (limbs_of(id)[1] + 0x1_0000_0000 * (limbs_of(
            id,
        )[2] + 0x1_0000_0000 * limbs_of(id)[3])),
{
}

/// The rows of a linear system are those that its declaration numbers from zero on, each
/// with a coefficient per slot and an offset.
pub proof fn law_linear_rows_are_declared(d: SystemDeclView, slots: usize, k: nat, i: int)
    requires
        rows_of(d, slots, k) is Ok,
        0 <= i < k,
    ensures
        ({
            let rows = rows_of(d, slots, k)->Ok_0;
            &&& rows.len() == k
            &&& rows[i].len() == slots + 1
            &&& assoc_get(d.vec_params, "row"@ + dec_text(i as nat)) == Some(rows[i])
        }),
    decreases k,
{
    if k > 1 {
        law_linear_rows_are_declared(d, slots, (k - 1) as nat, if i < k - 1 {
            i
        } else {
            0
        });
    } else {
        assert(rows_of(d, slots, 0) == Ok::<Seq<Seq<u64>>, FaultView>(Seq::empty()));
    }
}

} // verus!
