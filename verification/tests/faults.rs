//! What a compile refuses, and how it is told.

use pwe::api::{Error, Status};
use pwe::compile::compile;
use pwe::diagnostics::{
    clear_diagnostics, detail_name, diagnose, render_diagnostic, take_diagnostics, Diagnostic,
    Diagnostics,
};
use pwe::names::NameMap;
use pwe::numbers::{fractions, numerals, Numbers};

fn numbers(src: &str) -> Numbers {
    let value = |text: &String| -> u64 { text.parse::<f64>().unwrap().to_bits() };
    let mut texts: NameMap<u64> = NameMap::new();
    let mut ratios: Vec<(u64, u64, u64)> = Vec::new();
    for text in numerals(src) {
        let bits = value(&text);
        texts.insert(text, bits);
    }
    for (a, b) in fractions(src) {
        let (a, b) = (value(&a), value(&b));
        ratios.push((a, b, (f64::from_bits(a) / f64::from_bits(b)).to_bits()));
    }
    Numbers { texts, ratios }
}

/// The detail code of what a source is refused for; zero where it compiles.
fn detail(src: &str) -> u32 {
    match compile(&numbers(src), src, &mut Diagnostics::new()) {
        Ok(_) => 0,
        Err(e) => {
            assert_eq!(e.status, Status::Invalid, "{src}");
            e.detail
        }
    }
}

fn systems(body: &str) -> u32 {
    detail(&format!(
        "world {{ gravity = (0, 0, 0) entity e {{ state = (x = 1.0, v = 0.0) }} chan wire {{ value = 0 }} \
         field heat {{ width = 4; height = 4 }} pool p[2] {{ state = (x = 0.0) }} }} \
         systems {{ {body} }}"
    ))
}

#[test]
fn the_scaffold_compiles() {
    assert_eq!(systems("update { on = e; dt = 0.1 x = v }"), 0);
}

#[test]
fn a_missing_parameter_is_told() {
    assert_eq!(systems("integrate { }"), 48);
    assert_eq!(systems("spawn { on = e; pool = p; count = 0 }"), 48);
    assert_eq!(systems("spawn { on = e; pool = p; phase = 0.5 }"), 48);
    assert_eq!(systems("spawn { pool = p }"), 48);
}

#[test]
fn an_unknown_system_is_told() {
    assert_eq!(systems("warp { dt = 1 }"), 49);
}

#[test]
fn a_hull_needs_four_points() {
    assert_eq!(
        detail("world { entity e { hull = [ (0,0,0), (1,0,0), (0,1,0) ] } }"),
        51
    );
}

#[test]
fn a_slot_past_the_last_is_told() {
    assert_eq!(systems("update { on = e; dt = 1 s16 = v + 1.0 }"), 52);
    assert_eq!(systems("linear { slots = 17; dt = 1 }"), 52);
    assert_eq!(systems("recv { chan = wire; slot = 16 }"), 52);
}

#[test]
fn rows_of_a_linear_system_are_counted() {
    assert_eq!(systems("linear { slots = 2; dt = 1 row0 = (0, 1, 0) }"), 53);
    assert_eq!(systems("linear { slots = 2; dt = 1 row0 = (0, 1) row1 = (1, 0) }"), 54);
}

#[test]
fn a_reference_to_nothing_known_is_told() {
    assert_eq!(systems("update { on = e; dt = 1 x = @e.colour.x }"), 58);
}

#[test]
fn a_call_has_the_arguments_of_its_function() {
    assert_eq!(systems("update { on = e; dt = 1 x = abs(1.0, 2.0) }"), 59);
    assert_eq!(systems("update { on = e; dt = 1 x = if(1.0) }"), 59);
}

#[test]
fn what_does_not_parse_is_told() {
    assert_eq!(detail("world {"), 60);
    assert_eq!(detail("systems { update { dt = } }"), 60);
}

#[test]
fn an_unknown_entity_or_channel_is_told() {
    assert_eq!(systems("update { on = nobody; dt = 1 x = v + 1.0 }"), 62);
    assert_eq!(systems("send { chan = nothing; value = s0 }"), 62);
    assert_eq!(systems("diffuse { field = nothing; rate = 0.1 }"), 62);
}

#[test]
fn attraction_needs_bodies() {
    assert_eq!(
        detail("world { entity e { dynamic = false } } systems { nbody { G = 1; dt = 1 } }"),
        63
    );
}

#[test]
fn a_loop_count_is_bounded() {
    assert_eq!(systems("update { on = e; dt = 1 repeat 0 { let a = 1.0 } x = a }"), 65);
    assert_eq!(systems("update { on = e; dt = 1 repeat 1001 { let a = 1.0 } x = a }"), 65);
    assert_eq!(systems("update { on = e; dt = 1 for i in 0..1001 { let a = i } x = a }"), 65);
    assert_eq!(systems("update { on = e; dt = 1 repeat 1000 { let a = 1.0 } x = a }"), 0);
}

#[test]
fn nested_loops_unroll_within_a_limit() {
    let nested = |n: u32, m: u32| {
        format!("update {{ on = e; dt = 1 repeat {n} {{ repeat {m} {{ let a = 1.0 }} }} x = a }}")
    };
    assert_eq!(systems(&nested(101, 100)), 66);
    assert_eq!(systems(&nested(100, 100)), 0);
}

#[test]
fn what_an_iteration_adds_counts_too() {
    let lets = |n: usize| -> String { (0..n).map(|k| format!("let y{k} = 1.0 ")).collect() };
    // The index of a counted loop is bound in every iteration.
    let counted = |n: usize| format!("update {{ on = e; dt = 1.0 for i in 0..1000 {{ {}}} x = y0 }}", lets(n));
    assert_eq!(systems(&counted(10)), 66);
    assert_eq!(systems(&counted(9)), 0);
    // So is the test that ends a repetition early.
    let gated =
        |n: usize| format!("update {{ on = e; dt = 1.0 repeat 1000 until (x > 1.0) {{ {}}} x = y0 }}", lets(n));
    assert_eq!(systems(&gated(10)), 66);
    assert_eq!(systems(&gated(9)), 0);
    let plain = |n: usize| format!("update {{ on = e; dt = 1.0 repeat 1000 {{ {}}} x = y0 }}", lets(n));
    assert_eq!(systems(&plain(11)), 66);
    assert_eq!(systems(&plain(10)), 0);
}

#[test]
fn a_let_does_not_take_a_reserved_name() {
    for name in ["t", "pi", "e", "s3"] {
        assert_eq!(
            systems(&format!("update {{ on = e; dt = 1 let {name} = 1.0 x = v + 1.0 }}")),
            67,
            "{name}"
        );
    }
}

#[test]
fn a_range_goes_up() {
    assert_eq!(systems("update { on = e; dt = 1 for i in 5..1 { let a = i } x = a }"), 68);
}

#[test]
fn a_query_needs_an_entity() {
    assert_eq!(
        detail("world { } funcs { near(r) { neighbor_count(r) } }"),
        70
    );
}

#[test]
fn schedules_and_substeps_are_counts() {
    assert_eq!(systems("update { on = e; dt = 1; every = 0 x = v + 1.0 }"), 71);
    assert_eq!(systems("update { on = e; dt = 1; every = 1.5 x = v + 1.0 }"), 71);
    assert_eq!(systems("update { on = e; dt = 1; substeps = 0 x = v + 1.0 }"), 72);
    assert_eq!(systems("update { on = e; dt = 1; substeps = 1001 x = v + 1.0 }"), 72);
    assert_eq!(systems("update { on = e; dt = 1; substeps = 1000 x = v + 1.0 }"), 0);
}

#[test]
fn a_field_has_a_size() {
    assert_eq!(detail("world { field f { width = 0; height = 3 } }"), 75);
}

#[test]
fn a_pool_that_is_not_there_is_told() {
    assert_eq!(systems("spawn { on = e; pool = nothing }"), 78);
    assert_eq!(systems("despawn { on = nothing; when = x > 0.0 }"), 78);
}

#[test]
fn units_are_checked_where_they_are_declared() {
    let with = |unit: &str| {
        detail(&format!(
            "world {{ entity e {{ state = (x = 1.0 [m], v = 0.0 [{unit}]) }} }} \
             systems {{ update {{ on = e; dt = 1 x = v }} }}"
        ))
    };
    assert_eq!(with("m/s"), 0);
    assert_eq!(with("kg"), 77);
    assert_eq!(
        detail(
            "world { entity e { state = (x = 1.0, v = 0.0) } } \
             systems { update { on = e; dt = 1 x = v + t * 3.0 } }"
        ),
        0
    );
}

#[test]
fn every_detail_has_a_phrase() {
    assert_eq!(detail_name(48), "missing required system parameter");
    assert_eq!(detail_name(66), "loop unrolls beyond the 10000-statement limit");
    assert_eq!(detail_name(77), "dimension mismatch (see declared units)");
    assert_eq!(detail_name(1), "unspecified compile error");
}

#[test]
fn a_diagnostic_shows_its_line() {
    let source = "world {\n  gravity = oops\n}\n";
    let diag = Diagnostic { detail: 60, message: "no number".to_string(), byte_offset: 20 };
    let text = render_diagnostic(source, &diag);
    assert!(text.contains("no number"), "{text}");
    assert!(text.contains("  gravity = oops"), "{text}");
    assert!(text.contains('^'), "{text}");
    assert!(text.contains(":2:13") || text.contains("line 2"), "{text}");
}

#[test]
fn only_the_described_place_has_to_be_shown() {
    // The entry of another source, inside a character of this one, is passed over.
    let source = "wörld {";
    let entry = |detail: u32, message: &str, byte_offset: usize| Diagnostic {
        detail,
        message: message.to_string(),
        byte_offset,
    };
    let mut log = Diagnostics::new();
    log.entries.push(entry(60, "first", 1));
    log.entries.push(entry(60, "no number", 3));
    log.entries.push(entry(61, "elsewhere", 2));
    let err = Error { status: Status::EirInvalid, detail: 60, byte_offset: 2 };
    let text = diagnose(&mut log, source, &err);
    assert_eq!(text, render_diagnostic(source, &entry(60, "no number", 3)));
    assert!(log.entries.is_empty());
    // Without an entry of its code, the place of the error itself is described.
    log.entries.push(entry(61, "elsewhere", 2));
    let err = Error { status: Status::EirInvalid, detail: 60, byte_offset: 1 };
    let text = diagnose(&mut log, source, &err);
    assert_eq!(text, render_diagnostic(source, &entry(60, detail_name(60), 1)));
    log.entries.push(entry(61, "elsewhere", 2));
    let err = Error { status: Status::EirInvalid, detail: 60, byte_offset: 0 };
    let text = diagnose(&mut log, source, &err);
    assert_eq!(text, format!("EirInvalid (60): {}", detail_name(60)));
    assert!(log.entries.is_empty());
}

#[test]
fn diagnostics_are_taken_once() {
    let src = "world { gravity=(0,0,0) entity e { state=(x=1.0) } } \
               systems { update { on = e; dt = 1 x = abs(1.0, 2.0) } }";
    let mut log = Diagnostics::new();
    let err: Error = match compile(&numbers(src), src, &mut log) {
        Ok(_) => panic!("expected a failure"),
        Err(e) => e,
    };
    assert_eq!(err.detail, 59);
    assert!(!diagnose(&mut log, src, &err).is_empty());
    let again = compile(&numbers(src), src, &mut log);
    assert!(again.is_err());
    let taken = take_diagnostics(&mut log);
    assert!(taken.iter().all(|d| d.detail == 59));
    assert!(take_diagnostics(&mut log).is_empty());
    clear_diagnostics(&mut log);
    assert!(take_diagnostics(&mut log).is_empty());
}
