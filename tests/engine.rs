use ft_ality::engine::{
    bindings, build_engine, combos_internal, current_state_info, display_for_internal,
    engine_from_gmr, matched_prefix_len, reset, step_keytok, EngineState,
};
use ft_ality::parse::parse_gmr;

fn pairs(v: &[(&str, &str)]) -> Vec<(String, String)> {
    v.iter().map(|(a, b)| (a.to_string(), b.to_string())).collect()
}

fn root() -> EngineState {
    EngineState { cur_state: 0, last_time_ms: None }
}

#[test]
fn bound_keys_drive_the_automaton() {
    let g = parse_gmr("[BP] -> Claw Slam\n[BP], [FP] -> Saibot Blast\n").unwrap();
    let (cfg, st) = build_engine(&g.rules, &pairs(&[("q", "[BP]"), ("w", "[FP]")]), 500);
    assert_eq!(st, root());
    let (st, outs) = step_keytok(&cfg, st, "q", 1000);
    assert_eq!(outs, vec!["Claw Slam".to_string()]);
    assert_eq!(st.last_time_ms, Some(1000));
    let (st, outs) = step_keytok(&cfg, st, "w", 1200);
    assert_eq!(outs, vec!["Saibot Blast".to_string()]);
    assert_ne!(st.cur_state, 0);
}

#[test]
fn timeout_resets_to_root() {
    let g = parse_gmr("a, b -> AB\nb -> B\n").unwrap();
    let (cfg, st) = build_engine(&g.rules, &pairs(&[("x", "a"), ("y", "b")]), 500);
    let (st1, _) = step_keytok(&cfg, st, "x", 100);
    let (late, late_outs) = step_keytok(&cfg, st1, "y", 601);
    let (fresh, fresh_outs) = step_keytok(&cfg, root(), "y", 601);
    assert_eq!(late, fresh);
    assert_eq!(late_outs, fresh_outs);
    assert_eq!(late_outs, vec!["B".to_string()]);
    let (_, in_time) = step_keytok(&cfg, st1, "y", 600);
    let mut in_time = in_time;
    in_time.sort();
    assert_eq!(in_time, vec!["AB".to_string(), "B".to_string()]);
}

#[test]
fn unbound_key_changes_nothing() {
    let g = parse_gmr("a, b -> AB\n").unwrap();
    let (cfg, st) = build_engine(&g.rules, &pairs(&[("x", "a")]), 500);
    let (st1, _) = step_keytok(&cfg, st, "x", 100);
    let (st2, outs) = step_keytok(&cfg, st1, "nope", 200);
    assert_eq!(st2, st1);
    assert_eq!(st2.last_time_ms, Some(100));
    assert!(outs.is_empty());
}

#[test]
fn last_binding_of_a_key_wins() {
    let g = parse_gmr("a -> A\nb -> B\n").unwrap();
    let (cfg, st) = build_engine(&g.rules, &pairs(&[("k", "a"), ("k", "b")]), 500);
    let (_, outs) = step_keytok(&cfg, st, "k", 0);
    assert_eq!(outs, vec!["B".to_string()]);
}

#[test]
fn prefix_probe_reports_position() {
    let g = parse_gmr("a, b, c -> ABC\n").unwrap();
    let (cfg, st) = build_engine(&g.rules, &pairs(&[("x", "a"), ("y", "b")]), 500);
    let (st, _) = step_keytok(&cfg, st, "x", 0);
    let (st, _) = step_keytok(&cfg, st, "y", 10);
    let steps = combos_internal(&cfg)[0].0.clone();
    assert_eq!(matched_prefix_len(&cfg, st.cur_state, &steps), 2);
    assert_eq!(matched_prefix_len(&cfg, 999, &steps), 0);
    let before = st;
    let _ = matched_prefix_len(&cfg, st.cur_state, &steps);
    assert_eq!(before, st);
}

#[test]
fn diagnostics_and_reset() {
    let g = parse_gmr("a -> A\n").unwrap();
    let (cfg, st) = build_engine(&g.rules, &pairs(&[("x", "a"), ("z", "zz")]), 500);
    assert_eq!(current_state_info(&cfg, st), (Vec::new(), false));
    let (st, _) = step_keytok(&cfg, st, "x", 0);
    assert_eq!(current_state_info(&cfg, st), (vec!["A".to_string()], false));
    let (st, _) = step_keytok(&cfg, st, "z", 1);
    assert_eq!(current_state_info(&cfg, st), (Vec::new(), true));
    assert_eq!(reset(&cfg, st), root());
}

#[test]
fn display_lists_at_most_two_keys() {
    let g = parse_gmr("a -> A\n").unwrap();
    let b = pairs(&[("x", "a"), ("y", "a"), ("x", "a"), ("z", "a"), ("w", "b")]);
    let (cfg, _) = build_engine(&g.rules, &b, 500);
    assert_eq!(display_for_internal(&cfg, "a"), "x / y / \u{2026}");
    assert_eq!(display_for_internal(&cfg, "b"), "w");
    assert_eq!(display_for_internal(&cfg, "c"), "c");
    assert_eq!(bindings(&cfg).len(), 5);
    let b2 = pairs(&[("x", "a"), ("y", "a")]);
    let (cfg2, _) = build_engine(&g.rules, &b2, 500);
    assert_eq!(display_for_internal(&cfg2, "a"), "x / y");
}

#[test]
fn engine_from_source_text() {
    let src = "q -> [BP]\nw -> [FP]\n[BP] -> Claw Slam\n[BP], [FP] -> Saibot Blast\n";
    let (cfg, st) = engine_from_gmr(src, 500).unwrap();
    assert_eq!(combos_internal(&cfg).len(), 2);
    let (st, o1) = step_keytok(&cfg, st, "q", 0);
    assert_eq!(o1, vec!["Claw Slam".to_string()]);
    let (_, o2) = step_keytok(&cfg, st, "w", 100);
    assert_eq!(o2, vec!["Saibot Blast".to_string()]);
    let err = engine_from_gmr("q -> [BP]\n[BP] [FP]\n", 500).err().unwrap();
    assert_eq!(err, "line 2: expected '->' in rule");
}

#[test]
fn bindings_are_shown_sorted_by_key() {
    let g = parse_gmr("a -> A\n").unwrap();
    let b = pairs(&[("z", "a"), ("b", "c"), ("m", "d"), ("b", "e"), ("B", "f")]);
    let (cfg, _) = build_engine(&g.rules, &b, 500);
    let shown: Vec<(String, String)> = bindings(&cfg).to_vec();
    assert_eq!(shown, pairs(&[("B", "f"), ("b", "c"), ("b", "e"), ("m", "d"), ("z", "a")]));
    let (_, st) = build_engine(&g.rules, &b, 500);
    let (_, outs) = step_keytok(&cfg, st, "z", 0);
    assert_eq!(outs, vec!["A".to_string()]);
}

#[test]
fn display_keys_follow_key_order() {
    let g = parse_gmr("a -> A\n").unwrap();
    let b = pairs(&[("y", "a"), ("x", "a")]);
    let (cfg, _) = build_engine(&g.rules, &b, 500);
    assert_eq!(display_for_internal(&cfg, "a"), "x / y");
}
