use vstd::prelude::*;

use crate::automaton::{find_token, strings_view, valid_rules, Automaton, RuleSpec, Word};
use crate::parse::{
    alphabet_of, bindings_of, bindings_view, classify, combos_of, is_line_error, lemma_combos_valid,
    lemma_parse_valid, line_error_text, parse_gmr, parse_source, rules_view, Rule,
};
use crate::text::{ascending, join, join_strings, lemma_sorted_labels, seq_le, sorted_labels, str_le};

verus! {

/// The character sequences of a list of string pairs.
pub open spec fn pairs_view(v: Seq<(String, String)>) -> Seq<(Seq<char>, Seq<char>)> {
    v.map_values(|p: (String, String)| (p.0@, p.1@))
}

/// The abstract form of a combo list: token sequences with labels.
pub open spec fn combos_view(v: Seq<(Vec<String>, String)>) -> Seq<RuleSpec> {
    v.map_values(|c: (Vec<String>, String)| (strings_view(c.0@), c.1@))
}

/// The internal symbol bound to `key`: the last binding of that key wins.
pub open spec fn binding_of(bs: Seq<(Seq<char>, Seq<char>)>, key: Seq<char>) -> Option<Seq<char>>
    decreases bs.len(),
{
    if bs.len() == 0 {
        None
    } else if bs.last().0 == key {
        Some(bs.last().1)
    } else {
        binding_of(bs.drop_last(), key)
    }
}

/// What a session shares: the automaton, the key bindings, the combos for display
/// and the inactivity timeout in milliseconds.
pub struct EngineConfig {
    pub automaton: Automaton,
    pub key_to_internal: Vec<(String, String)>,
    pub bindings_display: Vec<(String, String)>,
    pub combos_internal: Vec<(Vec<String>, String)>,
    pub step_timeout_ms: u128,
}

/// The per-session state: the current automaton state and the time of the last
/// event that a binding recognised.
#[derive(Debug, Clone, Copy, PartialEq, Eq, Structural)]
pub struct EngineState {
    pub cur_state: usize,
    pub last_time_ms: Option<u128>,
}

impl EngineConfig {
    /// The automaton is well formed and the combos listed are its rules.
    pub open spec fn wf(&self) -> bool {
        &&& self.automaton.wf()
        &&& combos_view(self.combos_internal@) == self.automaton.rules()
    }

    /// The internal symbol that `key` is bound to.
    pub open spec fn binding(&self, key: Seq<char>) -> Option<Seq<char>> {
        binding_of(pairs_view(self.key_to_internal@), key)
    }

    /// A session state that this configuration can advance.
    pub open spec fn valid_state(&self, st: EngineState) -> bool {
        st.cur_state < self.automaton.num_states()
    }

    /// The state that matching resumes from at time `now`: the root once more than
    /// the timeout has passed since the last event, else the current state.
    pub open spec fn base_state(&self, st: EngineState, now: u128) -> int {
        match st.last_time_ms {
            Some(prev) => if now > prev && now - prev > self.step_timeout_ms {
                0
            } else {
                st.cur_state as int
            },
            None => st.cur_state as int,
        }
    }

    /// Advancing a session by one key token at time `now`: the new session state
    /// and the labels produced. An unbound key changes nothing and produces nothing.
    pub open spec fn advance(&self, st: EngineState, key: Seq<char>, now: u128) -> (EngineState, Set<Seq<char>>) {
        match self.binding(key) {
            None => (st, Set::empty()),
            Some(sym) => {
                let next = self.automaton.next_state(self.base_state(st, now), sym);
                (EngineState { cur_state: next as usize, last_time_ms: Some(now) }, self.automaton.outputs_of(next))
            },
        }
    }
}

/// The position (from 1) of the first prefix of `toks` whose run from the root
/// ends in `target`, searching from position `i + 1`; 0 if none does.
pub open spec fn first_hit(a: Automaton, target: int, toks: Word, i: nat) -> nat
    decreases toks.len() - i,
{
    if i >= toks.len() {
        0
    } else if a.run(0, toks.take(i + 1int)) == target {
        i + 1
    } else {
        first_hit(a, target, toks, i + 1)
    }
}

fn lookup_binding<'a>(bs: &'a Vec<(String, String)>, key: &str) -> (r: Option<&'a String>)
    ensures
        match binding_of(pairs_view(bs@), key@) {
            None => r is None,
            Some(sym) => r matches Some(s) && s@ == sym,
        },
{
    let mut k: usize = bs.len();
    let owned = key.to_owned();
    assert(pairs_view(bs@).take(k as int) =~= pairs_view(bs@));
    while k > 0
        invariant
            k <= bs@.len(),
            owned@ == key@,
            binding_of(pairs_view(bs@), key@) == binding_of(pairs_view(bs@).take(k as int), key@),
        decreases k,
    {
        let ghost t = pairs_view(bs@).take(k as int);
        assert(t.drop_last() =~= pairs_view(bs@).take(k - 1));
        if bs[k - 1].0 == owned {
            return Some(&bs[k - 1].1);
        }
        k -= 1;
    }
    None
}

fn combo_strings(combos: &[Rule]) -> (r: Vec<(Vec<String>, String)>)
    ensures
        combos_view(r@) == rules_view(combos@),
{
    let mut out: Vec<(Vec<String>, String)> = Vec::new();
    let mut i: usize = 0;
    while i < combos.len()
        invariant
            i <= combos@.len(),
            combos_view(out@) == rules_view(combos@).take(i as int),
        decreases combos@.len() - i,
    {
        let rule = &combos[i];
        let mut steps: Vec<String> = Vec::new();
        let mut j: usize = 0;
        while j < rule.sequence.len()
            invariant
                j <= rule.sequence@.len(),
                strings_view(steps@) == rule@.0.take(j as int),
            decreases rule.sequence@.len() - j,
        {
            let s = rule.sequence[j].as_str().to_owned();
            let ghost before = steps@;
            steps.push(s);
            assert(strings_view(steps@) =~= strings_view(before).push(s@));
            assert(rule@.0.take(j + 1) =~= rule@.0.take(j as int).push(rule@.0[j as int]));
            j += 1;
        }
        assert(rule@.0.take(j as int) =~= rule@.0);
        let ghost before = out@;
        out.push((steps, rule.move_name.clone()));
        assert(combos_view(out@) =~= combos_view(before).push(rules_view(combos@)[i as int]));
        assert(rules_view(combos@).take(i + 1) =~= rules_view(combos@).take(i as int).push(rules_view(combos@)[i as int]));
        i += 1;
    }
    assert(rules_view(combos@).take(i as int) =~= rules_view(combos@));
    out
}

fn copy_pairs(bs: &[(String, String)]) -> (r: Vec<(String, String)>)
    ensures
        pairs_view(r@) == pairs_view(bs@),
{
    let mut out: Vec<(String, String)> = Vec::new();
    let mut i: usize = 0;
    while i < bs.len()
        invariant
            i <= bs@.len(),
            pairs_view(out@) == pairs_view(bs@).take(i as int),
        decreases bs@.len() - i,
    {
        let ghost before = out@;
        out.push((bs[i].0.clone(), bs[i].1.clone()));
        assert(pairs_view(out@) =~= pairs_view(before).push(pairs_view(bs@)[i as int]));
        assert(pairs_view(bs@).take(i + 1) =~= pairs_view(bs@).take(i as int).push(pairs_view(bs@)[i as int]));
        i += 1;
    }
    assert(pairs_view(bs@).take(i as int) =~= pairs_view(bs@));
    out
}

/// Builds a session configuration from rules, key bindings and a timeout, and the
/// initial session state: the root, with no event yet.
pub fn build_engine(combos: &[Rule], bindings: &[(String, String)], step_timeout_ms: u128) -> (r: (
    EngineConfig,
    EngineState,
))
    requires
        valid_rules(rules_view(combos@)),
    ensures
        r.0.wf(),
        r.0.automaton.rules() == rules_view(combos@),
        pairs_view(r.0.key_to_internal@) == pairs_view(bindings@),
        pairs_view(r.0.bindings_display@) == sorted_by_key(pairs_view(bindings@)),
        r.0.step_timeout_ms == step_timeout_ms,
        r.1 == (EngineState { cur_state: 0, last_time_ms: None }),
{
    let automaton = Automaton::from_combos(combos);
    proof {
        automaton.lemma_wf();
    }
    let key_to_internal = copy_pairs(bindings);
    let bindings_display = sort_by_key(bindings);
    let combos_internal = combo_strings(combos);
    let cfg = EngineConfig { automaton, key_to_internal, bindings_display, combos_internal, step_timeout_ms };
    (cfg, EngineState { cur_state: 0, last_time_ms: None })
}

/// The key bindings, ordered by key.
pub fn bindings(cfg: &EngineConfig) -> (r: &[(String, String)])
    ensures
        r@ == cfg.bindings_display@,
{
    cfg.bindings_display.as_slice()
}

/// The combos: each rule's token sequence with its label.
pub fn combos_internal(cfg: &EngineConfig) -> (r: &[(Vec<String>, String)])
    ensures
        r@ == cfg.combos_internal@,
{
    cfg.combos_internal.as_slice()
}

/// Advances a session by one key token at time `now_ms`.
pub fn step_keytok(cfg: &EngineConfig, st: EngineState, keytok: &str, now_ms: u128) -> (r: (EngineState, Vec<String>))
    requires
        cfg.wf(),
        cfg.valid_state(st),
    ensures
        r.0 == cfg.advance(st, keytok@, now_ms).0,
        strings_view(r.1@) == sorted_labels(cfg.advance(st, keytok@, now_ms).1),
        ascending(strings_view(r.1@)),
        strings_view(r.1@).to_set() == cfg.advance(st, keytok@, now_ms).1,
        strings_view(r.1@).no_duplicates(),
        cfg.valid_state(r.0),
{
    proof {
        cfg.automaton.lemma_wf();
    }
    let internal = match lookup_binding(&cfg.key_to_internal, keytok) {
        Some(s) => s,
        None => {
            let none: Vec<String> = Vec::new();
            proof {
                assert(strings_view(none@) =~= Seq::<Seq<char>>::empty());
                assert(strings_view(none@).to_set() =~= Set::empty());
                lemma_sorted_labels(strings_view(none@));
            }
            return (st, none);
        },
    };
    let base_state: usize = match st.last_time_ms {
        Some(prev) => if now_ms.saturating_sub(prev) > cfg.step_timeout_ms {
            0
        } else {
            st.cur_state
        },
        None => st.cur_state,
    };
    let (next, outs) = cfg.automaton.step(base_state, internal.as_str());
    (EngineState { cur_state: next, last_time_ms: Some(now_ms) }, outs)
}

/// The 1-based position at which feeding `steps` from the root first reaches
/// `target_state`, or 0 if it never does. The session is not touched.
pub fn matched_prefix_len(cfg: &EngineConfig, target_state: usize, steps: &[String]) -> (r: usize)
    requires
        cfg.wf(),
    ensures
        r == first_hit(cfg.automaton, target_state as int, strings_view(steps@), 0),
{
    let ghost toks = strings_view(steps@);
    proof {
        cfg.automaton.lemma_wf();
        assert(toks.take(0) =~= Seq::<Seq<char>>::empty());
    }
    let mut st: usize = 0;
    let mut i: usize = 0;
    while i < steps.len()
        invariant
            cfg.wf(),
            i <= steps@.len(),
            toks == strings_view(steps@),
            st < cfg.automaton.num_states(),
            st == cfg.automaton.run(0, toks.take(i as int)),
            first_hit(cfg.automaton, target_state as int, toks, 0) == first_hit(
                cfg.automaton,
                target_state as int,
                toks,
                i as nat,
            ),
        decreases steps@.len() - i,
    {
        let (nxt, _) = cfg.automaton.step(st, steps[i].as_str());
        proof {
            let t1 = toks.take(i + 1);
            assert(t1.drop_last() =~= toks.take(i as int));
            assert(t1.last() == steps@[i as int]@);
        }
        st = nxt;
        if st == target_state {
            return i + 1;
        }
        i += 1;
    }
    0
}

/// The session state after an explicit reset: the root, with no event.
pub fn reset(_cfg: &EngineConfig, _st: EngineState) -> (r: EngineState)
    ensures
        r == (EngineState { cur_state: 0, last_time_ms: None }),
{
    EngineState { cur_state: 0, last_time_ms: None }
}

/// The current state's output labels, and whether the session sits at the root
/// after some event (a sign that the last key did not continue a combo).
pub fn current_state_info(cfg: &EngineConfig, st: EngineState) -> (r: (Vec<String>, bool))
    requires
        cfg.wf(),
        cfg.valid_state(st),
    ensures
        strings_view(r.0@) == sorted_labels(cfg.automaton.outputs_of(st.cur_state as int)),
        ascending(strings_view(r.0@)),
        strings_view(r.0@).no_duplicates(),
        strings_view(r.0@).to_set() == cfg.automaton.outputs_of(st.cur_state as int),
        r.1 == (st.cur_state == 0 && st.last_time_ms is Some),
{
    let (outputs, _) = cfg.automaton.state_info(st.cur_state);
    let is_fail = st.cur_state == 0 && st.last_time_ms.is_some();
    (outputs, is_fail)
}

/// Once more than the timeout has passed since a session's last event, a bound key
/// acts on it exactly as on a session at the root.
pub proof fn lemma_timeout_resets(cfg: &EngineConfig, st: EngineState, root: EngineState, key: Seq<char>, now1: u128, now2: u128)
    requires
        cfg.wf(),
        st.last_time_ms == Some(now1),
        now2 > now1,
        now2 - now1 > cfg.step_timeout_ms,
        root.cur_state == 0,
        cfg.binding(key) is Some,
    ensures
        cfg.advance(st, key, now2) == cfg.advance(root, key, now2),
{
}

/// An unbound key leaves the session as it was, timestamp included, and produces nothing.
pub proof fn lemma_unbound_key_ignored(cfg: &EngineConfig, st: EngineState, key: Seq<char>, now: u128)
    requires
        cfg.binding(key) is None,
    ensures
        cfg.advance(st, key, now) == (st, Set::<Seq<char>>::empty()),
{
}

/// How many key tokens the display of an internal token lists before eliding the rest.
pub const MAX_ALTS_PER_STEP: usize = 2;

/// The distinct keys bound to `internal`, in order of first appearance.
pub open spec fn keys_for(bs: Seq<(Seq<char>, Seq<char>)>, internal: Seq<char>) -> Seq<Seq<char>>
    decreases bs.len(),
{
    if bs.len() == 0 {
        Seq::empty()
    } else {
        let prev = keys_for(bs.drop_last(), internal);
        if bs.last().1 == internal && !prev.contains(bs.last().0) {
            prev.push(bs.last().0)
        } else {
            prev
        }
    }
}

/// How an internal token is shown: the keys bound to it joined by " / ", at most
/// two of them and then an ellipsis; the token itself where no key is bound to it.
pub open spec fn display_text(bs: Seq<(Seq<char>, Seq<char>)>, internal: Seq<char>) -> Seq<char> {
    let ks = keys_for(bs, internal);
    if ks.len() == 0 {
        internal
    } else if ks.len() <= MAX_ALTS_PER_STEP {
        join(ks, " / "@)
    } else {
        join(ks.take(MAX_ALTS_PER_STEP as int), " / "@) + " / \u{2026}"@
    }
}

/// The keys bound to `internal`, as a display string.
pub fn display_for_internal(cfg: &EngineConfig, internal: &str) -> (r: String)
    ensures
        r@ == display_text(pairs_view(cfg.bindings_display@), internal@),
{
    let ghost bs = pairs_view(cfg.bindings_display@);
    let target = internal.to_owned();
    let mut keys: Vec<String> = Vec::new();
    let mut i: usize = 0;
    assert(bs.take(0) =~= Seq::<(Seq<char>, Seq<char>)>::empty());
    while i < cfg.bindings_display.len()
        invariant
            bs == pairs_view(cfg.bindings_display@),
            target@ == internal@,
            i <= bs.len(),
            strings_view(keys@) == keys_for(bs.take(i as int), internal@),
        decreases bs.len() - i,
    {
        let pair = &cfg.bindings_display[i];
        proof {
            assert(bs.take(i + 1).drop_last() =~= bs.take(i as int));
            assert(bs.take(i + 1).last() == (pair.0@, pair.1@));
        }
        if pair.1 == target {
            match find_token(&keys, &pair.0) {
                Some(k) => {
                    assert(strings_view(keys@)[k as int] == pair.0@);
                },
                None => {
                    let ghost before = keys@;
                    keys.push(pair.0.clone());
                    assert(strings_view(keys@) =~= strings_view(before).push(pair.0@));
                },
            }
        }
        i += 1;
    }
    assert(bs.take(i as int) =~= bs);
    if keys.len() == 0 {
        return target;
    }
    let mut shown: Vec<String> = Vec::new();
    let mut k: usize = 0;
    while k < keys.len() && k < MAX_ALTS_PER_STEP
        invariant
            k <= keys@.len(),
            k <= MAX_ALTS_PER_STEP,
            strings_view(shown@) == strings_view(keys@).take(k as int),
        decreases keys@.len() - k,
    {
        let ghost before = shown@;
        shown.push(keys[k].clone());
        assert(strings_view(shown@) =~= strings_view(before).push(keys@[k as int]@));
        assert(strings_view(keys@).take(k + 1) =~= strings_view(keys@).take(k as int).push(keys@[k as int]@));
        k += 1;
    }
    let mut out = join_strings(shown.as_slice(), " / ");
    proof {
        assert(shown@.map_values(|p: String| p@) =~= strings_view(shown@));
        if keys@.len() <= MAX_ALTS_PER_STEP {
            assert(strings_view(keys@).take(k as int) =~= strings_view(keys@));
        }
    }
    if keys.len() > MAX_ALTS_PER_STEP {
        out.append(" / \u{2026}");
    }
    out
}

/// Builds a session configuration from rule source text: key-binding rules become
/// the binding table, the other rules the combos.
pub fn engine_from_gmr(source: &str, step_timeout_ms: u128) -> (r: Result<(EngineConfig, EngineState), String>)
    requires
        source@.len() < usize::MAX,
    ensures
        match parse_source(source@) {
            Err((e, n)) => r matches Err(m) && m@ == line_error_text(e, n),
            Ok(rules) => r matches Ok((cfg, st)) && cfg.wf() && cfg.automaton.rules() == combos_of(
                rules,
                alphabet_of(rules),
            ) && pairs_view(cfg.key_to_internal@) == bindings_of(rules, alphabet_of(rules))
                && cfg.step_timeout_ms == step_timeout_ms && st == (EngineState {
                cur_state: 0,
                last_time_ms: None,
            }),
        },
{
    let g = match parse_gmr(source) {
        Ok(g) => g,
        Err(e) => {
            proof {
                if let Err((le, n)) = parse_source(source@) {
                    assert(is_line_error(e, le, n));
                }
            }
            return Err(e.message());
        },
    };
    let compiled = classify(&g);
    proof {
        lemma_parse_valid(source@, 1);
        lemma_combos_valid(rules_view(g.rules@), alphabet_of(rules_view(g.rules@)));
    }
    let mut pairs: Vec<(String, String)> = Vec::new();
    let mut i: usize = 0;
    while i < compiled.bindings.len()
        invariant
            i <= compiled.bindings@.len(),
            pairs_view(pairs@) == bindings_view(compiled.bindings@).take(i as int),
        decreases compiled.bindings@.len() - i,
    {
        let b = &compiled.bindings[i];
        let ghost before = pairs@;
        pairs.push((b.key.clone(), b.internal.clone()));
        assert(pairs_view(pairs@) =~= pairs_view(before).push((b.key@, b.internal@)));
        assert(bindings_view(compiled.bindings@).take(i + 1) =~= bindings_view(compiled.bindings@).take(i as int).push(
            (b.key@, b.internal@),
        ));
        i += 1;
    }
    assert(bindings_view(compiled.bindings@).take(i as int) =~= bindings_view(compiled.bindings@));
    Ok(build_engine(compiled.combos.as_slice(), pairs.as_slice(), step_timeout_ms))
}

/// Where a pair with key `k` goes in `s`: after the leading pairs whose key is at most `k`.
pub open spec fn insert_pos(s: Seq<(Seq<char>, Seq<char>)>, k: Seq<char>) -> nat
    decreases s.len(),
{
    if s.len() == 0 {
        0
    } else if seq_le(s[0].0, k) {
        1 + insert_pos(s.drop_first(), k)
    } else {
        0
    }
}

/// The pairs ordered by key; pairs with equal keys keep their order.
pub open spec fn sorted_by_key(s: Seq<(Seq<char>, Seq<char>)>) -> Seq<(Seq<char>, Seq<char>)>
    decreases s.len(),
{
    if s.len() == 0 {
        s
    } else {
        let t = sorted_by_key(s.drop_last());
        let p = insert_pos(t, s.last().0) as int;
        t.take(p) + seq![s.last()] + t.skip(p)
    }
}

/// The bindings ordered by key, stably.
fn sort_by_key(bs: &[(String, String)]) -> (r: Vec<(String, String)>)
    ensures
        pairs_view(r@) == sorted_by_key(pairs_view(bs@)),
{
    let ghost v = pairs_view(bs@);
    let mut out: Vec<(String, String)> = Vec::new();
    let mut i: usize = 0;
    assert(v.take(0) =~= Seq::<(Seq<char>, Seq<char>)>::empty());
    while i < bs.len()
        invariant
            v == pairs_view(bs@),
            i <= bs@.len(),
            pairs_view(out@) == sorted_by_key(v.take(i as int)),
        decreases bs@.len() - i,
    {
        let ghost t = pairs_view(out@);
        let key = &bs[i].0;
        let mut p: usize = 0;
        assert(t.skip(0) =~= t);
        while p < out.len() && str_le(&out[p].0, key)
            invariant
                t == pairs_view(out@),
                p <= out@.len(),
                insert_pos(t, key@) == p + insert_pos(t.skip(p as int), key@),
            decreases out@.len() - p,
        {
            proof {
                assert(t.skip(p as int)[0] == t[p as int]);
                assert(t.skip(p as int).drop_first() =~= t.skip(p + 1));
            }
            p += 1;
        }
        proof {
            if p < out@.len() {
                assert(t.skip(p as int)[0] == t[p as int]);
            }
        }
        out.insert(p, (bs[i].0.clone(), bs[i].1.clone()));
        proof {
            let x = v[i as int];
            assert(v.take(i + 1).drop_last() =~= v.take(i as int));
            assert(v.take(i + 1).last() == x);
            assert(pairs_view(out@) =~= t.take(p as int) + seq![x] + t.skip(p as int));
        }
        i += 1;
    }
    assert(v.take(i as int) =~= v);
    out
}

} // verus!
