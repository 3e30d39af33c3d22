use std::collections::VecDeque;

use ft_ality::engine::{build_engine, EngineState};
use ft_ality::parse::parse_gmr;
use ft_ality::screen::{
    build_ui_model, key_press_event, keytok_from_parts, layout_scene, reduce, AppEvent, ViewState,
};

fn pairs(v: &[(&str, &str)]) -> Vec<(String, String)> {
    v.iter().map(|(a, b)| (a.to_string(), b.to_string())).collect()
}

fn fresh() -> ViewState {
    ViewState { engine: EngineState { cur_state: 0, last_time_ms: None }, recent_msgs: VecDeque::new() }
}

#[test]
fn reduce_records_outputs_and_quit_keeps_state() {
    let g = parse_gmr("a -> A\n").unwrap();
    let (cfg, _) = build_engine(&g.rules, &pairs(&[("x", "a")]), 500);
    let v = reduce(&cfg, &fresh(), AppEvent::KeyTok("x".to_string()), 0);
    assert_eq!(v.recent_msgs, VecDeque::from(vec!["A".to_string()]));
    let q = reduce(&cfg, &v, AppEvent::Quit, 10);
    assert_eq!(q.engine, v.engine);
    assert_eq!(q.recent_msgs, v.recent_msgs);
}

#[test]
fn recent_outputs_keep_the_last_eight() {
    let g = parse_gmr("a -> A\n").unwrap();
    let (cfg, _) = build_engine(&g.rules, &pairs(&[("x", "a")]), 500);
    let mut v = fresh();
    for t in 0..10u128 {
        v = reduce(&cfg, &v, AppEvent::KeyTok("x".to_string()), t);
    }
    assert_eq!(v.recent_msgs.len(), 8);
}

#[test]
fn ui_model_texts() {
    let g = parse_gmr("a, b -> AB\nc -> C\n").unwrap();
    let (cfg, _) = build_engine(&g.rules, &pairs(&[("x", "a"), ("y", "b")]), 500);
    let v = reduce(&cfg, &fresh(), AppEvent::KeyTok("x".to_string()), 0);
    let ui = build_ui_model(&cfg, &v);
    assert_eq!(ui.left_bindings[0].text, "           x  \u{2192}  a");
    assert_eq!(ui.combos_lines[0].text, "x , y  =>  AB");
    assert_eq!(ui.combos_lines[0].rgb, (160, 240, 200));
    assert_eq!(ui.combos_lines[1].text, "c  =>  C");
    assert_eq!(ui.combos_lines[1].rgb, (220, 220, 220));
    assert_eq!(ui.cur_state_line.text, format!("Current state: {}", v.engine.cur_state));
    assert_eq!(ui.fail_line.text, "Fail link: false");
    assert!(ui.outs_lines.is_empty());
    assert_eq!(ui.footer.text, "Exit: Esc o ctrl-c");
}

#[test]
fn layout_places_lines() {
    let g = parse_gmr("a -> A\n").unwrap();
    let (cfg, _) = build_engine(&g.rules, &pairs(&[("x", "a"), ("y", "b")]), 500);
    let v = reduce(&cfg, &fresh(), AppEvent::KeyTok("x".to_string()), 0);
    let ui = build_ui_model(&cfg, &v);
    let scene = layout_scene(&ui, 18);
    assert_eq!(scene.bg, (18, 18, 18));
    let pos: Vec<(i32, i32)> = scene.texts.iter().map(|n| (n.x, n.y)).collect();
    assert_eq!(
        pos,
        vec![
            (16, 14),
            (16, 42),
            (16, 66),
            (16, 110),
            (16, 138),
            (520, 14),
            (520, 40),
            (520, 68),
            (520, 96),
            (540, 120),
            (520, 220),
            (540, 244),
            (370, 572),
        ]
    );
    assert_eq!(scene.texts[9].line.text, "\u{2022} A");
    let small = layout_scene(&ui, 10);
    assert_eq!(small.texts[2].y, 64);
}

#[test]
fn key_tokens_from_modifiers() {
    assert_eq!(keytok_from_parts(true, true, true, "up"), "shift-alt-ctrl-up");
    assert_eq!(keytok_from_parts(false, false, true, "c"), "ctrl-c");
    assert_eq!(keytok_from_parts(false, false, false, "q"), "q");
    assert!(matches!(key_press_event("ctrl-c".to_string()), AppEvent::Quit));
    assert!(matches!(key_press_event("q".to_string()), AppEvent::KeyTok(t) if t == "q"));
}
