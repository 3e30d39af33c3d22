use ft_ality::automaton::Automaton;
use ft_ality::parse::{parse_gmr, Rule};

fn rules(src: &str) -> Vec<Rule> {
    parse_gmr(src).unwrap().rules
}

fn sorted(mut v: Vec<String>) -> Vec<String> {
    v.sort();
    v
}

fn feed(a: &Automaton, toks: &[&str]) -> (usize, Vec<String>) {
    let mut st = 0usize;
    let mut outs = Vec::new();
    for t in toks {
        let (n, o) = a.step(st, t);
        st = n;
        outs = o;
    }
    (st, outs)
}

#[test]
fn claw_slam_then_saibot_blast() {
    let a = Automaton::from_combos(&rules("[BP] -> Claw Slam\n[BP], [FP] -> Saibot Blast\n"));
    let (s1, o1) = a.step(0, "[BP]");
    assert_ne!(s1, 0);
    assert_eq!(o1, vec!["Claw Slam".to_string()]);
    let (s2, o2) = a.step(s1, "[FP]");
    assert_ne!(s2, 0);
    assert_eq!(o2, vec!["Saibot Blast".to_string()]);
}

#[test]
fn fireball_needs_its_whole_prefix() {
    let a = Automaton::from_combos(&rules("Down, Right, [FP] -> Fireball\n"));
    let (_, o1) = a.step(0, "Right");
    assert!(o1.is_empty());
    let (_, o2) = feed(&a, &["Right", "[FP]"]);
    assert!(!o2.contains(&"Fireball".to_string()));
    let (_, o3) = feed(&a, &["Down", "Right", "[FP]"]);
    assert_eq!(o3, vec!["Fireball".to_string()]);
}

#[test]
fn each_rule_fires_on_its_own_sequence() {
    let src = "a, b, c -> ABC\nb, c -> BC\nc -> C\nb, d -> BD\n";
    let a = Automaton::from_combos(&rules(src));
    let (_, o) = feed(&a, &["a", "b", "c"]);
    assert_eq!(o, vec!["ABC".to_string(), "BC".to_string(), "C".to_string()]);
    let (_, o) = feed(&a, &["b", "d"]);
    assert_eq!(o, vec!["BD".to_string()]);
}

#[test]
fn suffix_fires_after_unrelated_prefix() {
    let a = Automaton::from_combos(&rules("a, b, c -> ABC\nb, c, d -> BCD\n"));
    let (_, o) = feed(&a, &["x", "a", "a", "b", "c", "d"]);
    assert_eq!(o, vec!["BCD".to_string()]);
    let (_, o) = feed(&a, &["b", "a", "b", "c"]);
    assert_eq!(o, vec!["ABC".to_string()]);
}

#[test]
fn step_is_deterministic_across_rebuilds() {
    let src = "a, b -> AB\nb -> B\na, a, b -> AAB\n";
    let a1 = Automaton::from_combos(&rules(src));
    let a2 = Automaton::from_combos(&rules(src));
    for cur in 0..4usize {
        for t in ["a", "b", "z"] {
            assert_eq!(a1.step(cur, t), a2.step(cur, t));
            assert_eq!(a1.step(cur, t), a1.step(cur, t));
        }
    }
}

#[test]
fn unknown_symbol_goes_to_root_with_nothing() {
    let a = Automaton::from_combos(&rules("a, b -> AB\n"));
    let (s, _) = a.step(0, "a");
    assert_eq!(a.step(s, "zzz"), (0, Vec::new()));
    assert_eq!(a.step(0, "zzz"), (0, Vec::new()));
}

#[test]
fn empty_rule_list_never_matches() {
    let a = Automaton::from_combos(&[]);
    assert_eq!(a.step(0, "a"), (0, Vec::new()));
    assert_eq!(a.state_info(0), (Vec::new(), 0));
}

#[test]
fn duplicate_labels_are_reported_once() {
    let a = Automaton::from_combos(&rules("a -> X\nb, a -> X\na -> X\n"));
    let (_, o) = feed(&a, &["b", "a"]);
    assert_eq!(o, vec!["X".to_string()]);
}

#[test]
fn state_info_gives_outputs_and_failure_link() {
    let a = Automaton::from_combos(&rules("a, b -> AB\nb -> B\n"));
    let (s_a, _) = a.step(0, "a");
    let (s_ab, o) = a.step(s_a, "b");
    assert_eq!(sorted(o), vec!["AB".to_string(), "B".to_string()]);
    let (s_b, _) = a.step(0, "b");
    let (outs, fail) = a.state_info(s_ab);
    assert_eq!(sorted(outs), vec!["AB".to_string(), "B".to_string()]);
    assert_eq!(fail, s_b);
    assert_eq!(a.state_info(s_a), (Vec::new(), 0));
    assert_eq!(a.state_info(0).1, 0);
}

#[test]
fn labels_come_in_ascending_order() {
    let a = Automaton::from_combos(&rules("b -> Zed\na, b -> Alpha\nb -> Mid\n"));
    let (s, o) = feed(&a, &["a", "b"]);
    assert_eq!(o, vec!["Alpha".to_string(), "Mid".to_string(), "Zed".to_string()]);
    assert_eq!(a.state_info(s).0, o);
}
