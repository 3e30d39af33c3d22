use vstd::prelude::*;

use crate::parse::{add_token, add_tokens, alphabet_of, rules_view, Rule, Token};
use crate::text::{ascending, lemma_le_antisym, lemma_le_total, lemma_le_trans, lemma_sorted_labels, seq_lt, sorted_labels, str_le};

verus! {

/// A sequence of tokens, each one a sequence of characters.
pub type Word = Seq<Seq<char>>;

/// The abstract form of a rule: its token sequence and its output label.
pub type RuleSpec = (Word, Seq<char>);

pub open spec fn is_prefix_of(u: Word, w: Word) -> bool {
    u.len() <= w.len() && w.subrange(0, u.len() as int) == u
}

pub open spec fn is_suffix_of(u: Word, w: Word) -> bool {
    u.len() <= w.len() && w.subrange(w.len() - u.len(), w.len() as int) == u
}

/// Every rule has at least one token.
pub open spec fn valid_rules(rules: Seq<RuleSpec>) -> bool {
    forall|i: int| 0 <= i < rules.len() ==> (#[trigger] rules[i]).0.len() > 0
}

/// `w` labels a node of the trie: it is empty or a prefix of some rule's sequence.
pub open spec fn in_trie(rules: Seq<RuleSpec>, w: Word) -> bool {
    w.len() == 0 || exists|i: int| 0 <= i < rules.len() && is_prefix_of(w, #[trigger] rules[i].0)
}

/// The longest suffix of `w` that labels a node of the trie.
pub open spec fn longest_trie_suffix(rules: Seq<RuleSpec>, w: Word) -> Word
    decreases w.len(),
{
    if w.len() == 0 || in_trie(rules, w) {
        w
    } else {
        longest_trie_suffix(rules, w.drop_first())
    }
}

/// The labels of the rules whose whole sequence is a suffix of `w`.
pub open spec fn matched_labels(rules: Seq<RuleSpec>, w: Word) -> Set<Seq<char>> {
    Set::new(
        |l: Seq<char>|
            exists|i: int| 0 <= i < rules.len() && (#[trigger] rules[i]).1 == l && is_suffix_of(rules[i].0, w),
    )
}

/// The labels of the rules whose sequence is exactly `w`.
pub open spec fn literal_labels(rules: Seq<RuleSpec>, w: Word) -> Set<Seq<char>> {
    Set::new(|l: Seq<char>| exists|i: int| 0 <= i < rules.len() && (#[trigger] rules[i]).1 == l && rules[i].0 == w)
}

/// Some rule's sequence holds `tok`.
pub open spec fn uses_token(rules: Seq<RuleSpec>, tok: Seq<char>) -> bool {
    exists|i: int, j: int| 0 <= i < rules.len() && 0 <= j < rules[i].0.len() && #[trigger] rules[i].0[j] == tok
}

pub open spec fn add_path(ps: Seq<Word>, w: Word) -> Seq<Word> {
    if ps.contains(w) {
        ps
    } else {
        ps.push(w)
    }
}

/// `ps` extended by the non-empty prefixes of `w` up to length `j`, in order, skipping those present.
pub open spec fn add_prefixes(ps: Seq<Word>, w: Word, j: nat) -> Seq<Word>
    decreases j,
{
    if j == 0 {
        ps
    } else {
        add_path(add_prefixes(ps, w, (j - 1) as nat), w.take(j as int))
    }
}

/// The trie's nodes for the first `i` rules, numbered in order of creation: the root
/// first, then each new prefix as the rules are walked in order.
pub open spec fn trie_paths(rules: Seq<RuleSpec>, i: nat) -> Seq<Word>
    decreases i,
{
    if i == 0 || i > rules.len() {
        seq![Seq::empty()]
    } else {
        add_prefixes(trie_paths(rules, (i - 1) as nat), rules[i - 1].0, rules[i - 1].0.len())
    }
}

pub proof fn lemma_suffix_trans(u: Word, v: Word, w: Word)
    requires
        is_suffix_of(u, v),
        is_suffix_of(v, w),
    ensures
        is_suffix_of(u, w),
{
    assert(w.subrange(w.len() - u.len(), w.len() as int) =~= v.subrange(v.len() - u.len(), v.len() as int));
}

proof fn lemma_suffix_push(u: Word, w: Word, a: Seq<char>)
    requires
        is_suffix_of(u, w),
    ensures
        is_suffix_of(u.push(a), w.push(a)),
{
    assert(w.push(a).subrange(w.len() - u.len(), w.len() + 1int) =~= u.push(a));
}

proof fn lemma_suffix_of_push(u: Word, w: Word, a: Seq<char>)
    requires
        is_suffix_of(u, w.push(a)),
        u.len() > 0,
    ensures
        u.last() == a,
        is_suffix_of(u.drop_last(), w),
        u == u.drop_last().push(a),
{
    assert(w.push(a).subrange(w.len() + 1 - u.len(), w.len() + 1int)[u.len() - 1] == a);
    assert(w.subrange(w.len() - (u.len() - 1), w.len() as int) =~= u.drop_last());
    assert(u =~= u.drop_last().push(a));
}

proof fn lemma_suffix_antisym(u: Word, w: Word)
    requires
        is_suffix_of(u, w),
        is_suffix_of(w, u),
    ensures
        u == w,
{
    assert(w.subrange(0, w.len() as int) =~= w);
}

proof fn lemma_suffix_shorter(u: Word, w: Word)
    requires
        is_suffix_of(u, w),
        u.len() < w.len(),
    ensures
        is_suffix_of(u, w.drop_first()),
{
    assert(w.drop_first().subrange(w.len() - 1 - u.len(), w.len() - 1) =~= w.subrange(
        w.len() - u.len(),
        w.len() as int,
    ));
}

proof fn lemma_suffix_refl(w: Word)
    ensures
        is_suffix_of(w, w),
        is_prefix_of(w, w),
{
    assert(w.subrange(0, w.len() as int) =~= w);
}

proof fn lemma_drop_first_suffix(w: Word)
    requires
        w.len() > 0,
    ensures
        is_suffix_of(w.drop_first(), w),
{
    assert(w.subrange(1, w.len() as int) =~= w.drop_first());
}

/// The longest trie suffix is a suffix of its argument, and labels a trie node.
pub proof fn lemma_lts_basic(rules: Seq<RuleSpec>, w: Word)
    ensures
        is_suffix_of(longest_trie_suffix(rules, w), w),
        in_trie(rules, longest_trie_suffix(rules, w)),
    decreases w.len(),
{
    if w.len() == 0 || in_trie(rules, w) {
        lemma_suffix_refl(w);
    } else {
        lemma_lts_basic(rules, w.drop_first());
        lemma_drop_first_suffix(w);
        lemma_suffix_trans(longest_trie_suffix(rules, w.drop_first()), w.drop_first(), w);
    }
}

/// Every suffix of `w` that labels a trie node is a suffix of the longest one.
pub proof fn lemma_lts_longest(rules: Seq<RuleSpec>, u: Word, w: Word)
    requires
        is_suffix_of(u, w),
        in_trie(rules, u),
    ensures
        is_suffix_of(u, longest_trie_suffix(rules, w)),
    decreases w.len(),
{
    if w.len() == 0 || in_trie(rules, w) {
    } else {
        if u.len() == w.len() {
            assert(w.subrange(0, w.len() as int) =~= w);
        }
        lemma_suffix_shorter(u, w);
        lemma_lts_longest(rules, u, w.drop_first());
    }
}

proof fn lemma_in_trie_drop_last(rules: Seq<RuleSpec>, w: Word)
    requires
        in_trie(rules, w),
        w.len() > 0,
    ensures
        in_trie(rules, w.drop_last()),
{
    let i = choose|i: int| 0 <= i < rules.len() && is_prefix_of(w, #[trigger] rules[i].0);
    assert(rules[i].0.subrange(0, w.len() - 1) =~= w.drop_last());
}

/// Feeding one more token: only the longest trie suffix of what came before matters.
pub proof fn lemma_lts_push(rules: Seq<RuleSpec>, w: Word, a: Seq<char>)
    ensures
        longest_trie_suffix(rules, w.push(a)) == longest_trie_suffix(
            rules,
            longest_trie_suffix(rules, w).push(a),
        ),
{
    let lw = longest_trie_suffix(rules, w);
    let l = longest_trie_suffix(rules, w.push(a));
    let m = longest_trie_suffix(rules, lw.push(a));
    lemma_lts_basic(rules, w);
    lemma_lts_basic(rules, w.push(a));
    lemma_lts_basic(rules, lw.push(a));
    lemma_suffix_push(lw, w, a);
    lemma_suffix_trans(m, lw.push(a), w.push(a));
    lemma_lts_longest(rules, m, w.push(a));
    if l.len() == 0 {
        assert(m.len() == 0);
        assert(m =~= l);
    } else {
        lemma_suffix_of_push(l, w, a);
        lemma_in_trie_drop_last(rules, l);
        lemma_lts_longest(rules, l.drop_last(), w);
        lemma_suffix_push(l.drop_last(), lw, a);
        lemma_lts_longest(rules, l, lw.push(a));
        lemma_suffix_antisym(l, m);
    }
}

/// A rule's sequence is a suffix of `w` exactly when it is a suffix of `w`'s longest trie suffix.
pub proof fn lemma_matched_lts(rules: Seq<RuleSpec>, w: Word)
    ensures
        matched_labels(rules, w) == matched_labels(rules, longest_trie_suffix(rules, w)),
{
    let lw = longest_trie_suffix(rules, w);
    lemma_lts_basic(rules, w);
    assert forall|l: Seq<char>| matched_labels(rules, w).contains(l) implies matched_labels(
        rules,
        lw,
    ).contains(l) by {
        let i = choose|i: int|
            0 <= i < rules.len() && (#[trigger] rules[i]).1 == l && is_suffix_of(rules[i].0, w);
        lemma_suffix_refl(rules[i].0);
        assert(in_trie(rules, rules[i].0));
        lemma_lts_longest(rules, rules[i].0, w);
    }
    assert forall|l: Seq<char>| matched_labels(rules, lw).contains(l) implies matched_labels(
        rules,
        w,
    ).contains(l) by {
        let i = choose|i: int|
            0 <= i < rules.len() && (#[trigger] rules[i]).1 == l && is_suffix_of(rules[i].0, lw);
        lemma_suffix_trans(rules[i].0, lw, w);
    }
    assert(matched_labels(rules, w) =~= matched_labels(rules, lw));
}

/// The labels matched at a trie node are those ending exactly there, together with
/// those matched at the longest proper suffix that is a trie node.
pub proof fn lemma_matched_split(rules: Seq<RuleSpec>, w: Word)
    requires
        w.len() > 0,
    ensures
        matched_labels(rules, w) == literal_labels(rules, w).union(
            matched_labels(rules, longest_trie_suffix(rules, w.drop_first())),
        ),
{
    let d = w.drop_first();
    let ld = longest_trie_suffix(rules, d);
    lemma_matched_lts(rules, d);
    lemma_drop_first_suffix(w);
    assert forall|l: Seq<char>| matched_labels(rules, w).contains(l) implies literal_labels(
        rules,
        w,
    ).union(matched_labels(rules, d)).contains(l) by {
        let i = choose|i: int|
            0 <= i < rules.len() && (#[trigger] rules[i]).1 == l && is_suffix_of(rules[i].0, w);
        if rules[i].0.len() == w.len() {
            assert(w.subrange(0, w.len() as int) =~= w);
        } else {
            lemma_suffix_shorter(rules[i].0, w);
        }
    }
    assert forall|l: Seq<char>|
        literal_labels(rules, w).union(matched_labels(rules, d)).contains(l) implies matched_labels(
        rules,
        w,
    ).contains(l) by {
        if literal_labels(rules, w).contains(l) {
            let i = choose|i: int| 0 <= i < rules.len() && (#[trigger] rules[i]).1 == l && rules[i].0 == w;
            lemma_suffix_refl(w);
        } else {
            let i = choose|i: int|
                0 <= i < rules.len() && (#[trigger] rules[i]).1 == l && is_suffix_of(rules[i].0, d);
            lemma_suffix_trans(rules[i].0, d, w);
        }
    }
    assert(matched_labels(rules, w) =~= literal_labels(rules, w).union(matched_labels(rules, d)));
}

/// `x` is empty or a non-empty prefix of one of the first `i` rules.
pub open spec fn prefix_among(rules: Seq<RuleSpec>, i: nat, x: Word) -> bool {
    x.len() == 0 || exists|r: int, k: int|
        0 <= r < i && 1 <= k <= rules[r].0.len() && x == #[trigger] rules[r].0.take(k)
}

proof fn lemma_add_path(ps: Seq<Word>, w: Word)
    ensures
        forall|x: Word| #[trigger] add_path(ps, w).contains(x) <==> (ps.contains(x) || x == w),
        ps.no_duplicates() ==> add_path(ps, w).no_duplicates(),
        add_path(ps, w).len() >= ps.len(),
        forall|k: int| 0 <= k < ps.len() ==> add_path(ps, w)[k] == ps[k],
{
    if !ps.contains(w) {
        assert forall|x: Word| #[trigger] add_path(ps, w).contains(x) <==> (ps.contains(x) || x == w) by {
            if x == w {
                assert(ps.push(w)[ps.len() as int] == w);
            }
            if ps.contains(x) {
                let k = choose|k: int| 0 <= k < ps.len() && ps[k] == x;
                assert(ps.push(w)[k] == x);
            }
        }
    }
}

proof fn lemma_add_prefixes(ps: Seq<Word>, w: Word, j: nat)
    requires
        j <= w.len(),
    ensures
        forall|x: Word| #[trigger]
            add_prefixes(ps, w, j).contains(x) <==> (ps.contains(x) || exists|k: int|
                1 <= k <= j && x == #[trigger] w.take(k)),
        ps.no_duplicates() ==> add_prefixes(ps, w, j).no_duplicates(),
        add_prefixes(ps, w, j).len() >= ps.len(),
        forall|k: int| 0 <= k < ps.len() ==> add_prefixes(ps, w, j)[k] == ps[k],
    decreases j,
{
    if j > 0 {
        let prev = add_prefixes(ps, w, (j - 1) as nat);
        lemma_add_prefixes(ps, w, (j - 1) as nat);
        lemma_add_path(prev, w.take(j as int));
        assert forall|x: Word| #[trigger]
            add_prefixes(ps, w, j).contains(x) <==> (ps.contains(x) || exists|k: int|
                1 <= k <= j && x == #[trigger] w.take(k)) by {
            if exists|k: int| 1 <= k <= j && x == #[trigger] w.take(k) {
                let k = choose|k: int| 1 <= k <= j && x == #[trigger] w.take(k);
                if k < j {
                    assert(prev.contains(x));
                }
            }
        }
    }
}

/// The numbered trie nodes are distinct, start with the root, and are exactly the
/// prefixes of the first `i` rules.
pub proof fn lemma_trie_paths(rules: Seq<RuleSpec>, i: nat)
    requires
        i <= rules.len(),
    ensures
        trie_paths(rules, i).no_duplicates(),
        trie_paths(rules, i).len() >= 1,
        trie_paths(rules, i)[0] == Seq::<Seq<char>>::empty(),
        forall|x: Word| #[trigger] trie_paths(rules, i).contains(x) <==> prefix_among(rules, i, x),
    decreases i,
{
    if i == 0 {
        let ps = trie_paths(rules, i);
        assert(ps =~= seq![Seq::<Seq<char>>::empty()]);
        assert forall|x: Word| #[trigger] ps.contains(x) <==> prefix_among(rules, i, x) by {
            if x.len() == 0 {
                assert(x =~= Seq::<Seq<char>>::empty());
                assert(ps[0] == x);
            }
        }
    } else {
        let prev = trie_paths(rules, (i - 1) as nat);
        let w = rules[i - 1].0;
        lemma_trie_paths(rules, (i - 1) as nat);
        lemma_add_prefixes(prev, w, w.len());
        let ps = trie_paths(rules, i);
        assert forall|x: Word| #[trigger] ps.contains(x) <==> prefix_among(rules, i, x) by {
            if prefix_among(rules, i, x) && x.len() > 0 {
                let (r, k) = choose|r: int, k: int|
                    0 <= r < i && 1 <= k <= rules[r].0.len() && x == #[trigger] rules[r].0.take(k);
                if r < i - 1 {
                    assert(prefix_among(rules, (i - 1) as nat, x));
                } else {
                    assert(x == w.take(k));
                }
            }
            if ps.contains(x) && x.len() > 0 {
                if prev.contains(x) {
                } else {
                    let k = choose|k: int| 1 <= k <= w.len() && x == #[trigger] w.take(k);
                    assert(x == rules[i - 1].0.take(k));
                }
            }
        }
    }
}

/// A word labels a trie node exactly when it is a prefix of some rule.
pub proof fn lemma_prefix_among_in_trie(rules: Seq<RuleSpec>, x: Word)
    ensures
        prefix_among(rules, rules.len(), x) <==> in_trie(rules, x),
{
    if x.len() > 0 {
        if prefix_among(rules, rules.len(), x) {
            let (r, k) = choose|r: int, k: int|
                0 <= r < rules.len() && 1 <= k <= rules[r].0.len() && x == #[trigger] rules[r].0.take(k);
            assert(rules[r].0.subrange(0, x.len() as int) =~= x);
        }
        if in_trie(rules, x) {
            let r = choose|r: int| 0 <= r < rules.len() && is_prefix_of(x, #[trigger] rules[r].0);
            assert(x == rules[r].0.take(x.len() as int));
        }
    }
}

/// The character sequences of a list of strings.
pub open spec fn strings_view(v: Seq<String>) -> Seq<Seq<char>> {
    v.map_values(|s: String| s@)
}

/// One node of the automaton.
struct State {
    /// Trie edges: (symbol, target state).
    goto_: Vec<(usize, usize)>,
    fail: usize,
    outputs: Vec<String>,
    depth: usize,
}

/// An immutable multi-pattern matcher built from an ordered rule list.
pub struct Automaton {
    states: Vec<State>,
    start: usize,
    token_by_sym: Vec<String>,
    rules: Ghost<Seq<RuleSpec>>,
    paths: Ghost<Seq<Word>>,
}

spec fn edge_ok(tokens: Seq<String>, paths: Seq<Word>, s: int, edge: (usize, usize)) -> bool {
    &&& edge.0 < tokens.len()
    &&& edge.1 < paths.len()
    &&& paths[edge.1 as int] == paths[s].push(tokens[edge.0 as int]@)
}

spec fn has_parent(states: Seq<State>, t: int) -> bool {
    exists|s: int, e: int|
        0 <= s < states.len() && 0 <= e < states[s].goto_@.len() && (#[trigger] states[s].goto_@[e]).1 == t
}

/// The trie's shape: node `s` is reached from the root by `paths[s]`, every edge
/// extends its source's path by its symbol's token, and every node but the root
/// has an incoming edge.
spec fn trie_ok(states: Seq<State>, tokens: Seq<String>, paths: Seq<Word>) -> bool {
    &&& states.len() >= 1
    &&& paths.len() == states.len()
    &&& paths[0] == Seq::<Seq<char>>::empty()
    &&& paths.no_duplicates()
    &&& strings_view(tokens).no_duplicates()
    &&& forall|s: int|
        0 <= s < states.len() ==> (#[trigger] states[s]).depth == paths[s].len() && paths[s].len() <= s
    &&& forall|s: int, e: int|
        0 <= s < states.len() && 0 <= e < states[s].goto_@.len() ==> edge_ok(
            tokens,
            paths,
            s,
            #[trigger] states[s].goto_@[e],
        )
    &&& forall|s: int, e1: int, e2: int|
        0 <= s < states.len() && 0 <= e1 < states[s].goto_@.len() && 0 <= e2 < states[s].goto_@.len()
            && e1 != e2 ==> #[trigger] states[s].goto_@[e1].0 != #[trigger] states[s].goto_@[e2].0
    &&& forall|t: int| 0 < t < states.len() ==> #[trigger] has_parent(states, t)
}

/// The outputs of every node are, without repetition, the labels given.
spec fn outputs_are(states: Seq<State>, s: int, labels: Set<Seq<char>>) -> bool {
    &&& ascending(strings_view(states[s].outputs@))
    &&& strings_view(states[s].outputs@).to_set() == labels
}

/// Where no edge of `cur` carries `sym`, no node extends `cur`'s path by its token.
proof fn lemma_no_edge(states: Seq<State>, tokens: Seq<String>, paths: Seq<Word>, cur: int, sym: int)
    requires
        trie_ok(states, tokens, paths),
        0 <= cur < states.len(),
        0 <= sym < tokens.len(),
        forall|e: int| 0 <= e < states[cur].goto_@.len() ==> (#[trigger] states[cur].goto_@[e]).0 != sym,
    ensures
        !paths.contains(paths[cur].push(tokens[sym]@)),
{
    if paths.contains(paths[cur].push(tokens[sym]@)) {
        let t = choose|t: int| 0 <= t < paths.len() && paths[t] == paths[cur].push(tokens[sym]@);
        assert(paths[t].len() > 0);
        assert(has_parent(states, t));
        let (s, e) = choose|s: int, e: int|
            0 <= s < states.len() && 0 <= e < states[s].goto_@.len() && (#[trigger] states[s].goto_@[e]).1 == t;
        let b = states[s].goto_@[e].0 as int;
        assert(edge_ok(tokens, paths, s, states[s].goto_@[e]));
        assert(paths[s] == paths[t].drop_last());
        assert(paths[cur] =~= paths[t].drop_last());
        assert(s == cur);
        assert(paths[s].push(tokens[b]@).last() == tokens[b]@);
        assert(paths[cur].push(tokens[sym]@).last() == tokens[sym]@);
        assert(tokens[b]@ == tokens[sym]@);
        assert(strings_view(tokens)[b] == strings_view(tokens)[sym]);
    }
}

fn find_edge(edges: &Vec<(usize, usize)>, sym: usize) -> (r: Option<usize>)
    ensures
        r matches Some(t) ==> exists|e: int| 0 <= e < edges@.len() && edges@[e] == (sym, t),
        r is None ==> forall|e: int| 0 <= e < edges@.len() ==> (#[trigger] edges@[e]).0 != sym,
{
    let mut k: usize = 0;
    while k < edges.len()
        invariant
            0 <= k <= edges@.len(),
            forall|e: int| 0 <= e < k ==> (#[trigger] edges@[e]).0 != sym,
        decreases edges@.len() - k,
    {
        if edges[k].0 == sym {
            return Some(edges[k].1);
        }
        k += 1;
    }
    None
}

pub(crate) fn find_token(tokens: &Vec<String>, tok: &String) -> (r: Option<usize>)
    ensures
        r matches Some(k) ==> k < tokens@.len() && tokens@[k as int]@ == tok@,
        r is None ==> !strings_view(tokens@).contains(tok@),
{
    let mut k: usize = 0;
    while k < tokens.len()
        invariant
            0 <= k <= tokens@.len(),
            forall|e: int| 0 <= e < k ==> (#[trigger] tokens@[e])@ != tok@,
        decreases tokens@.len() - k,
    {
        if tokens[k] == *tok {
            return Some(k);
        }
        k += 1;
    }
    proof {
        if strings_view(tokens@).contains(tok@) {
            let e = choose|e: int| 0 <= e < tokens@.len() && strings_view(tokens@)[e] == tok@;
            assert(tokens@[e]@ == tok@);
        }
    }
    None
}

/// The symbol of `tok`, interned on first sight.
fn intern_symbol(tokens: &mut Vec<String>, tok: &str) -> (s: usize)
    ensures
        s < final(tokens)@.len(),
        final(tokens)@[s as int]@ == tok@,
        strings_view(old(tokens)@).contains(tok@) ==> final(tokens)@ == old(tokens)@,
        !strings_view(old(tokens)@).contains(tok@) ==> strings_view(final(tokens)@) == strings_view(
            old(tokens)@,
        ).push(tok@) && final(tokens)@.len() == old(tokens)@.len() + 1 && forall|k: int|
            0 <= k < old(tokens)@.len() ==> #[trigger] final(tokens)@[k] == old(tokens)@[k],
        strings_view(old(tokens)@).no_duplicates() ==> strings_view(final(tokens)@).no_duplicates(),
        strings_view(final(tokens)@).contains(tok@),
        forall|x: Seq<char>| strings_view(old(tokens)@).contains(x) ==> #[trigger] strings_view(final(tokens)@).contains(x),
{
    let owned = tok.to_owned();
    match find_token(tokens, &owned) {
        Some(k) => {
            assert(strings_view(tokens@)[k as int] == tok@);
            k
        },
        None => {
            let ghost before = tokens@;
            let k = tokens.len();
            tokens.push(owned);
            assert(strings_view(tokens@) =~= strings_view(before).push(tok@));
            assert(strings_view(tokens@)[k as int] == tok@);
            proof {
                assert forall|x: Seq<char>| strings_view(before).contains(x) implies #[trigger] strings_view(tokens@).contains(x) by {
                    let e = choose|e: int| 0 <= e < before.len() && strings_view(before)[e] == x;
                    assert(strings_view(tokens@)[e] == x);
                }
            }
            k
        },
    }
}

/// Whether `a` comes strictly before `b`.
fn str_lt(a: &String, b: &String) -> (r: bool)
    ensures
        r == seq_lt(a@, b@),
{
    str_le(a, b) && !(*a == *b)
}

/// Adds `label` to an ascending list of labels, at its place; a label already
/// present is not repeated.
fn add_output(outs: &mut Vec<String>, label: &String)
    ensures
        ascending(strings_view(old(outs)@)) ==> ascending(strings_view(final(outs)@)),
        strings_view(final(outs)@).to_set() == strings_view(old(outs)@).to_set().insert(label@),
{
    let ghost a = strings_view(outs@);
    let mut p: usize = 0;
    while p < outs.len() && str_lt(&outs[p], label)
        invariant
            p <= outs@.len(),
            a == strings_view(outs@),
            forall|i: int| 0 <= i < p ==> seq_lt(#[trigger] a[i], label@),
        decreases outs@.len() - p,
    {
        p += 1;
    }
    if p < outs.len() && outs[p] == *label {
        proof {
            assert(a[p as int] == label@);
            assert(a.to_set() =~= a.to_set().insert(label@));
        }
        return;
    }
    outs.insert(p, label.clone());
    proof {
        let q = strings_view(outs@);
        let x = label@;
        assert(q =~= a.insert(p as int, x));
        assert forall|y: Seq<char>| q.to_set().contains(y) <==> a.to_set().insert(x).contains(y) by {
            if q.to_set().contains(y) {
                let k = choose|k: int| 0 <= k < q.len() && q[k] == y;
                if k < p {
                    assert(a[k] == y);
                } else if k > p {
                    assert(a[k - 1] == y);
                }
            }
            if a.to_set().contains(y) {
                let k = choose|k: int| 0 <= k < a.len() && a[k] == y;
                if k < p {
                    assert(q[k] == y);
                } else {
                    assert(q[k + 1] == y);
                }
            }
            if y == x {
                assert(q[p as int] == y);
            }
        }
        assert(q.to_set() =~= a.to_set().insert(x));
        if ascending(a) {
            if p < a.len() {
                assert(!seq_lt(a[p as int], x));
                assert(a[p as int] != x);
                lemma_le_total(a[p as int], x);
            }
            assert forall|i: int, j: int| 0 <= i < j < q.len() implies seq_lt(#[trigger] q[i], #[trigger] q[j]) by {
                if j < p {
                    assert(seq_lt(a[i], a[j]));
                } else if j == p {
                    assert(seq_lt(a[i], x));
                } else if i < p {
                    assert(seq_lt(a[i], a[j - 1]));
                } else if i == p {
                    if j - 1 > p {
                        assert(seq_lt(a[p as int], a[j - 1]));
                        lemma_le_trans(x, a[p as int], a[j - 1]);
                        if x == a[j - 1] {
                            lemma_le_antisym(a[p as int], a[j - 1]);
                        }
                    }
                } else {
                    assert(seq_lt(a[i - 1], a[j - 1]));
                }
            }
        }
    }
}

/// Each token of the first `i` rules is in the token table.
spec fn tokens_cover(rules: Seq<RuleSpec>, i: int, tokens: Seq<String>) -> bool {
    forall|r: int, j: int|
        0 <= r < i && 0 <= j < rules[r].0.len() ==> strings_view(tokens).contains(#[trigger] rules[r].0[j])
}

proof fn lemma_trie_ok_tokens(states: Seq<State>, t1: Seq<String>, t2: Seq<String>, paths: Seq<Word>)
    requires
        trie_ok(states, t1, paths),
        t2.len() >= t1.len(),
        forall|k: int| 0 <= k < t1.len() ==> #[trigger] t2[k] == t1[k],
        strings_view(t2).no_duplicates(),
    ensures
        trie_ok(states, t2, paths),
{
    assert forall|s: int, e: int| 0 <= s < states.len() && 0 <= e < states[s].goto_@.len() implies edge_ok(
        t2,
        paths,
        s,
        #[trigger] states[s].goto_@[e],
    ) by {
        assert(edge_ok(t1, paths, s, states[s].goto_@[e]));
        assert(t2[states[s].goto_@[e].0 as int] == t1[states[s].goto_@[e].0 as int]);
    }
}

proof fn lemma_trie_ok_extend(
    old_states: Seq<State>,
    new_states: Seq<State>,
    tokens: Seq<String>,
    paths: Seq<Word>,
    cur: int,
    sym: usize,
    new_idx: usize,
)
    requires
        new_idx == old_states.len(),
        trie_ok(old_states, tokens, paths),
        0 <= cur < old_states.len(),
        sym < tokens.len(),
        !paths.contains(paths[cur].push(tokens[sym as int]@)),
        forall|e: int| 0 <= e < old_states[cur].goto_@.len() ==> (#[trigger] old_states[cur].goto_@[e]).0 != sym,
        new_states.len() == old_states.len() + 1,
        forall|s: int| 0 <= s < old_states.len() && s != cur ==> #[trigger] new_states[s] == old_states[s],
        new_states[cur].goto_@ == old_states[cur].goto_@.push((sym, new_idx)),
        new_states[cur].depth == old_states[cur].depth,
        new_states[old_states.len() as int].goto_@.len() == 0,
        new_states[old_states.len() as int].depth == paths[cur].len() + 1,
    ensures
        trie_ok(new_states, tokens, paths.push(paths[cur].push(tokens[sym as int]@))),
{
    let n = old_states.len() as int;
    let np = paths.push(paths[cur].push(tokens[sym as int]@));
    assert(np[0] == paths[0]);
    assert forall|s: int| 0 <= s < new_states.len() implies (#[trigger] new_states[s]).depth == np[s].len()
        && np[s].len() <= s by {
        if s < n {
            assert(old_states[s].depth == paths[s].len());
        }
    }
    assert forall|s: int, e: int| 0 <= s < new_states.len() && 0 <= e < new_states[s].goto_@.len() implies edge_ok(
        tokens,
        np,
        s,
        #[trigger] new_states[s].goto_@[e],
    ) by {
        if s == n {
            assert(false);
        } else if s != cur {
            assert(new_states[s] == old_states[s]);
            let ed = old_states[s].goto_@[e];
            assert(edge_ok(tokens, paths, s, ed));
            assert(np[ed.1 as int] == paths[ed.1 as int]);
            assert(np[s] == paths[s]);
        } else if e < old_states[cur].goto_@.len() {
            let ed = old_states[s].goto_@[e];
            assert(new_states[cur].goto_@[e] == ed);
            assert(edge_ok(tokens, paths, s, ed));
            assert(np[ed.1 as int] == paths[ed.1 as int]);
            assert(np[s] == paths[s]);
        } else {
            assert(new_states[cur].goto_@[e] == (sym, new_idx));
            assert(np[s] == paths[s]);
        }
    }
    assert forall|s: int, e1: int, e2: int|
        0 <= s < new_states.len() && 0 <= e1 < new_states[s].goto_@.len() && 0 <= e2
            < new_states[s].goto_@.len() && e1 != e2 implies #[trigger] new_states[s].goto_@[e1].0
        != #[trigger] new_states[s].goto_@[e2].0 by {
        if s == cur {
            let g = old_states[cur].goto_@;
            if e1 < g.len() && e2 < g.len() {
                assert(g[e1].0 != g[e2].0);
            } else if e1 < g.len() {
                assert(g[e1].0 != sym);
            } else {
                assert(g[e2].0 != sym);
            }
        }
    }
    assert forall|t: int| 0 < t < new_states.len() implies #[trigger] has_parent(new_states, t) by {
        if t == n {
            let g = old_states[cur].goto_@;
            assert(new_states[cur].goto_@[g.len() as int].1 == t);
        } else {
            assert(has_parent(old_states, t));
            let (s, e) = choose|s: int, e: int|
                0 <= s < old_states.len() && 0 <= e < old_states[s].goto_@.len() && (#[trigger] old_states[s].goto_@[e]).1 == t;
            if s == cur {
                assert(new_states[cur].goto_@[e] == old_states[cur].goto_@[e]);
            } else {
                assert(new_states[s] == old_states[s]);
            }
            assert(new_states[s].goto_@[e].1 == t);
        }
    }
    assert(np.no_duplicates()) by {
        assert forall|a: int, b: int| 0 <= a < np.len() && 0 <= b < np.len() && a != b implies np[a] != np[b] by {
            if a < n && b < n {
            } else if a < n {
                assert(paths.contains(paths[a]));
            } else {
                assert(paths.contains(paths[b]));
            }
        }
    }
}

proof fn lemma_literal_take(rules: Seq<RuleSpec>, i: int, p: Word)
    requires
        0 <= i < rules.len(),
    ensures
        rules[i].0 == p ==> literal_labels(rules.take(i + 1), p) == literal_labels(rules.take(i), p).insert(
            rules[i].1,
        ),
        rules[i].0 != p ==> literal_labels(rules.take(i + 1), p) == literal_labels(rules.take(i), p),
{
    let a = rules.take(i);
    let b = rules.take(i + 1);
    assert forall|l: Seq<char>| literal_labels(b, p).contains(l) implies (literal_labels(a, p).contains(l)
        || (rules[i].0 == p && l == rules[i].1)) by {
        let r = choose|r: int| 0 <= r < b.len() && (#[trigger] b[r]).1 == l && b[r].0 == p;
        if r < i {
            assert(a[r] == b[r]);
        }
    }
    assert forall|l: Seq<char>| literal_labels(a, p).contains(l) implies literal_labels(b, p).contains(l) by {
        let r = choose|r: int| 0 <= r < a.len() && (#[trigger] a[r]).1 == l && a[r].0 == p;
        assert(b[r] == a[r]);
    }
    if rules[i].0 == p {
        assert(b[i] == rules[i]);
        assert(literal_labels(b, p) =~= literal_labels(a, p).insert(rules[i].1));
    } else {
        assert(literal_labels(b, p) =~= literal_labels(a, p));
    }
}

/// The whole sequence of each of the first `i` rules is a trie node.
proof fn lemma_rule_in_paths(rules: Seq<RuleSpec>, i: nat, w: Word, j: nat, r: int)
    requires
        i <= rules.len(),
        j <= w.len(),
        0 <= r < i,
    ensures
        add_prefixes(trie_paths(rules, i), w, j).contains(rules[r].0),
{
    lemma_trie_paths(rules, i);
    lemma_add_prefixes(trie_paths(rules, i), w, j);
    let x = rules[r].0;
    if x.len() > 0 {
        assert(x == rules[r].0.take(x.len() as int));
        assert(prefix_among(rules, i, x));
    } else {
        assert(prefix_among(rules, i, x));
    }
}

fn empty_state(depth: usize) -> (r: State)
    ensures
        r.goto_@.len() == 0,
        r.fail == 0,
        r.outputs@.len() == 0,
        r.depth == depth,
{
    State { goto_: Vec::new(), fail: 0, outputs: Vec::new(), depth }
}

/// The trie of `combos`: its nodes numbered in order of creation, each token given
/// a symbol on first sight, and at each node the labels of the rules ending there.
fn build_trie(combos: &[Rule]) -> (r: (Vec<State>, Vec<String>))
    requires
        valid_rules(rules_view(combos@)),
    ensures
        trie_ok(r.0@, r.1@, trie_paths(rules_view(combos@), combos@.len() as nat)),
        forall|s: int|
            0 <= s < r.0@.len() ==> outputs_are(
                r.0@,
                s,
                literal_labels(rules_view(combos@), trie_paths(rules_view(combos@), combos@.len() as nat)[s]),
            ),
        tokens_cover(rules_view(combos@), combos@.len() as int, r.1@),
        strings_view(r.1@) == alphabet_of(rules_view(combos@)),
        forall|s: int| 0 <= s < r.0@.len() ==> (#[trigger] r.0@[s]).fail == 0,
{
    let ghost rules = rules_view(combos@);
    let mut states: Vec<State> = Vec::new();
    states.push(empty_state(0));
    let mut tokens: Vec<String> = Vec::new();
    let ghost mut paths: Seq<Word> = seq![Seq::<Seq<char>>::empty()];
    proof {
        assert(paths == trie_paths(rules, 0));
        assert(strings_view(tokens@) =~= Seq::<Seq<char>>::empty());
        assert(rules.take(0) =~= Seq::<RuleSpec>::empty());
        assert forall|s: int| 0 <= s < states@.len() implies outputs_are(
            states@,
            s,
            literal_labels(rules.take(0), paths[s]),
        ) by {
            assert(strings_view(states@[s].outputs@) =~= Seq::<Seq<char>>::empty());
            assert(strings_view(states@[s].outputs@).to_set() =~= Set::<Seq<char>>::empty());
            assert(literal_labels(rules.take(0), paths[s]) =~= Set::empty());
        }
    }
    let mut i: usize = 0;
    while i < combos.len()
        invariant
            rules == rules_view(combos@),
            valid_rules(rules),
            i <= combos@.len(),
            paths == trie_paths(rules, i as nat),
            trie_ok(states@, tokens@, paths),
            forall|s: int|
                0 <= s < states@.len() ==> outputs_are(states@, s, literal_labels(rules.take(i as int), paths[s])),
            tokens_cover(rules, i as int, tokens@),
            strings_view(tokens@) == alphabet_of(rules.take(i as int)),
            forall|s: int| 0 <= s < states@.len() ==> (#[trigger] states@[s]).fail == 0,
        decreases combos@.len() - i,
    {
        let rule = &combos[i];
        let ghost w = rules[i as int].0;
        let ghost base = paths;
        assert(w == rule.sequence@.map_values(|t: Token| t@));
        let mut cur: usize = 0;
        let mut j: usize = 0;
        assert(w.take(0) =~= Seq::<Seq<char>>::empty());
        while j < rule.sequence.len()
            invariant
                rules == rules_view(combos@),
                valid_rules(rules),
                i < combos@.len(),
                rule == &combos@[i as int],
                w == rules[i as int].0,
                w == rule.sequence@.map_values(|t: Token| t@),
                base == trie_paths(rules, i as nat),
                j <= w.len(),
                paths == add_prefixes(base, w, j as nat),
                trie_ok(states@, tokens@, paths),
                cur < states@.len(),
                paths[cur as int] == w.take(j as int),
                forall|s: int|
                    0 <= s < states@.len() ==> outputs_are(states@, s, literal_labels(rules.take(i as int), paths[s])),
                tokens_cover(rules, i as int, tokens@),
                forall|k: int| 0 <= k < j ==> strings_view(tokens@).contains(#[trigger] w[k]),
                strings_view(tokens@) == add_tokens(alphabet_of(rules.take(i as int)), w.take(j as int)),
                forall|s: int| 0 <= s < states@.len() ==> (#[trigger] states@[s]).fail == 0,
            decreases w.len() - j,
        {
            let ghost t0 = tokens@;
            let sym = intern_symbol(&mut tokens, rule.sequence[j].as_str());
            proof {
                lemma_trie_ok_tokens(states@, t0, tokens@, paths);
                assert(w.take(j as int).push(w[j as int]) =~= w.take(j + 1));
                assert(tokens@[sym as int]@ == w[j as int]);
                assert(w.take(j + 1).drop_last() =~= w.take(j as int));
                assert(strings_view(tokens@) == add_token(strings_view(t0), w[j as int]));
            }
            match find_edge(&states[cur].goto_, sym) {
                Some(t) => {
                    proof {
                        let e = choose|e: int| 0 <= e < states@[cur as int].goto_@.len() && states@[cur as int].goto_@[e] == (sym, t);
                        assert(edge_ok(tokens@, paths, cur as int, states@[cur as int].goto_@[e]));
                        assert(paths[t as int] == w.take(j + 1));
                        assert(paths.contains(w.take(j + 1)));
                        paths = add_path(paths, w.take(j + 1));
                    }
                    cur = t;
                },
                None => {
                    proof {
                        lemma_no_edge(states@, tokens@, paths, cur as int, sym as int);
                    }
                    let ghost s0 = states@;
                    let new_idx = states.len();
                    let d = states[cur].depth + 1;
                    states[cur].goto_.push((sym, new_idx));
                    states.push(empty_state(d));
                    proof {
                        lemma_trie_ok_extend(s0, states@, tokens@, paths, cur as int, sym, new_idx);
                        let np = paths.push(w.take(j + 1));
                        assert forall|s: int| 0 <= s < states@.len() implies outputs_are(
                            states@,
                            s,
                            literal_labels(rules.take(i as int), np[s]),
                        ) by {
                            if s < s0.len() {
                                assert(states@[s].outputs == s0[s].outputs);
                                assert(np[s] == paths[s]);
                            } else {
                                assert(strings_view(states@[s].outputs@) =~= Seq::<Seq<char>>::empty());
                                assert(strings_view(states@[s].outputs@).to_set() =~= Set::<Seq<char>>::empty());
                                assert forall|l: Seq<char>| !literal_labels(rules.take(i as int), np[s]).contains(l) by {
                                    if literal_labels(rules.take(i as int), np[s]).contains(l) {
                                        let r = choose|r: int| 0 <= r < i && (#[trigger] rules.take(i as int)[r]).1 == l && rules.take(i as int)[r].0 == np[s];
                                        assert(rules.take(i as int)[r] == rules[r]);
                                        lemma_rule_in_paths(rules, i as nat, w, j as nat, r);
                                    }
                                }
                                assert(literal_labels(rules.take(i as int), np[s]) =~= Set::empty());
                            }
                        }
                        paths = np;
                    }
                    cur = new_idx;
                },
            }
            j += 1;
        }
        proof {
            assert(w.take(w.len() as int) =~= w);
            assert(paths == trie_paths(rules, (i + 1) as nat));
            assert(rules.take(i + 1).drop_last() =~= rules.take(i as int));
            assert(rules.take(i + 1).last() == rules[i as int]);
            assert(strings_view(tokens@) == alphabet_of(rules.take(i + 1)));
        }
        let ghost s1 = states@;
        add_output(&mut states[cur].outputs, &rule.move_name);
        proof {
            assert(rules[i as int].1 == rule.move_name@);
            assert forall|s: int| 0 <= s < states@.len() implies outputs_are(
                states@,
                s,
                literal_labels(rules.take(i + 1), paths[s]),
            ) by {
                lemma_literal_take(rules, i as int, paths[s]);
                if s != cur {
                    assert(states@[s] == s1[s]);
                    assert(paths[s] != paths[cur as int]);
                }
            }
            assert forall|r: int, k: int| 0 <= r < i + 1 && 0 <= k < rules[r].0.len() implies strings_view(
                tokens@,
            ).contains(#[trigger] rules[r].0[k]) by {
                if r == i {
                    assert(w[k] == rules[r].0[k]);
                }
            }
            assert(states@.len() == s1.len());
            assert forall|t: int| 0 < t < states@.len() implies #[trigger] has_parent(states@, t) by {
                assert(has_parent(s1, t));
                let (s, e) = choose|s: int, e: int|
                    0 <= s < s1.len() && 0 <= e < s1[s].goto_@.len() && (#[trigger] s1[s].goto_@[e]).1 == t;
                assert(states@[s].goto_@[e] == s1[s].goto_@[e]);
            }
            assert(trie_ok(states@, tokens@, paths));
        }
        i += 1;
    }
    proof {
        assert(rules.take(combos@.len() as int) =~= rules);
    }
    (states, tokens)
}

/// The failure link and the outputs of node `s` are final.
spec fn links_ok(states: Seq<State>, rules: Seq<RuleSpec>, paths: Seq<Word>, s: int) -> bool {
    let f = states[s].fail as int;
    &&& f < states.len()
    &&& (s == 0 ==> f == 0)
    &&& (s != 0 ==> paths[f] == longest_trie_suffix(rules, paths[s].drop_first()))
    &&& outputs_are(states, s, matched_labels(rules, paths[s]))
}

/// The numbered nodes are exactly the words that label trie nodes.
spec fn paths_exact(rules: Seq<RuleSpec>, paths: Seq<Word>) -> bool {
    forall|x: Word| #[trigger] paths.contains(x) <==> in_trie(rules, x)
}

/// Two node lists with the same edges and depths.
spec fn same_shape(a: Seq<State>, b: Seq<State>) -> bool {
    &&& a.len() == b.len()
    &&& forall|s: int| 0 <= s < a.len() ==> (#[trigger] a[s]).goto_ == b[s].goto_ && a[s].depth == b[s].depth
}

proof fn lemma_trie_ok_same_shape(a: Seq<State>, b: Seq<State>, tokens: Seq<String>, paths: Seq<Word>)
    requires
        trie_ok(a, tokens, paths),
        same_shape(a, b),
    ensures
        trie_ok(b, tokens, paths),
{
    assert forall|s: int| 0 <= s < b.len() implies (#[trigger] b[s]).depth == paths[s].len() && paths[s].len()
        <= s by {
        assert(a[s].depth == b[s].depth);
    }
    assert forall|s: int, e: int| 0 <= s < b.len() && 0 <= e < b[s].goto_@.len() implies edge_ok(
        tokens,
        paths,
        s,
        #[trigger] b[s].goto_@[e],
    ) by {
        assert(a[s].goto_ == b[s].goto_);
        assert(edge_ok(tokens, paths, s, a[s].goto_@[e]));
    }
    assert forall|s: int, e1: int, e2: int|
        0 <= s < b.len() && 0 <= e1 < b[s].goto_@.len() && 0 <= e2 < b[s].goto_@.len() && e1
            != e2 implies #[trigger] b[s].goto_@[e1].0 != #[trigger] b[s].goto_@[e2].0 by {
        assert(a[s].goto_ == b[s].goto_);
        assert(a[s].goto_@[e1].0 != a[s].goto_@[e2].0);
    }
    assert forall|t: int| 0 < t < b.len() implies #[trigger] has_parent(b, t) by {
        assert(has_parent(a, t));
        let (s, e) = choose|s: int, e: int|
            0 <= s < a.len() && 0 <= e < a[s].goto_@.len() && (#[trigger] a[s].goto_@[e]).1 == t;
        assert(a[s].goto_ == b[s].goto_);
        assert(b[s].goto_@[e].1 == t);
    }
}

/// From node `f`, follows failure links until a node with an edge on `sym` (or the
/// root) is found, and takes that edge: the node of the longest trie suffix of
/// `f`'s path extended by the symbol's token.
fn climb(
    states: &Vec<State>,
    f: usize,
    sym: usize,
    Ghost(tokens): Ghost<Seq<String>>,
    Ghost(rules): Ghost<Seq<RuleSpec>>,
    Ghost(paths): Ghost<Seq<Word>>,
) -> (t: usize)
    requires
        trie_ok(states@, tokens, paths),
        paths_exact(rules, paths),
        f < states@.len(),
        sym < tokens.len(),
        forall|s: int|
            0 <= s < states@.len() && paths[s].len() <= paths[f as int].len() ==> links_ok(
                states@,
                rules,
                paths,
                s,
            ),
    ensures
        t < states@.len(),
        paths[t as int] == longest_trie_suffix(rules, paths[f as int].push(tokens[sym as int]@)),
{
    let ghost a = tokens[sym as int]@;
    let mut g: usize = f;
    loop
        invariant
            trie_ok(states@, tokens, paths),
            paths_exact(rules, paths),
            f < states@.len(),
            sym < tokens.len(),
            a == tokens[sym as int]@,
            forall|s: int|
                0 <= s < states@.len() && paths[s].len() <= paths[f as int].len() ==> links_ok(
                    states@,
                    rules,
                    paths,
                    s,
                ),
            g < states@.len(),
            paths[g as int].len() <= paths[f as int].len(),
            longest_trie_suffix(rules, paths[f as int].push(a)) == longest_trie_suffix(
                rules,
                paths[g as int].push(a),
            ),
        decreases paths[g as int].len(),
    {
        match find_edge(&states[g].goto_, sym) {
            Some(t) => {
                proof {
                    let e = choose|e: int| 0 <= e < states@[g as int].goto_@.len() && states@[g as int].goto_@[e] == (sym, t);
                    assert(edge_ok(tokens, paths, g as int, states@[g as int].goto_@[e]));
                    assert(paths.contains(paths[t as int]));
                    assert(longest_trie_suffix(rules, paths[t as int]) == paths[t as int]);
                }
                return t;
            },
            None => {
                proof {
                    lemma_no_edge(states@, tokens, paths, g as int, sym as int);
                    assert(!in_trie(rules, paths[g as int].push(a)));
                }
                if g == 0 {
                    proof {
                        let one = paths[0].push(a);
                        assert(one.drop_first() =~= Seq::<Seq<char>>::empty());
                        assert(longest_trie_suffix(rules, one) == longest_trie_suffix(rules, one.drop_first()));
                        assert(longest_trie_suffix(rules, one.drop_first()) == paths[0]);
                    }
                    return 0;
                }
                proof {
                    let p = paths[g as int];
                    assert(p.len() > 0) by {
                        if p.len() == 0 {
                            assert(p =~= paths[0]);
                        }
                    }
                    assert(links_ok(states@, rules, paths, g as int));
                    assert(p.push(a).drop_first() =~= p.drop_first().push(a));
                    lemma_lts_push(rules, p.drop_first(), a);
                    lemma_lts_basic(rules, p.drop_first());
                }
                g = states[g].fail;
            },
        }
    }
}

/// Computes every failure link and completes every output set, level by level
/// from the root (a breadth-first order).
fn failure_links(
    states: Vec<State>,
    tokens: &Vec<String>,
    Ghost(rules): Ghost<Seq<RuleSpec>>,
    Ghost(paths): Ghost<Seq<Word>>,
) -> (r: Vec<State>)
    requires
        valid_rules(rules),
        trie_ok(states@, tokens@, paths),
        paths_exact(rules, paths),
        forall|s: int| 0 <= s < states@.len() ==> outputs_are(states@, s, literal_labels(rules, paths[s])),
    ensures
        trie_ok(r@, tokens@, paths),
        same_shape(states@, r@),
        forall|s: int| 0 <= s < r@.len() ==> links_ok(r@, rules, paths, s),
{
    let mut states = states;
    let ghost orig = states@;
    states[0].fail = 0;
    let n = states.len();
    let ghost trie = states@;
    proof {
        lemma_trie_ok_same_shape(orig, trie, tokens@, paths);
    }
    proof {
        assert(literal_labels(rules, paths[0]) =~= matched_labels(rules, paths[0])) by {
            assert forall|l: Seq<char>| !matched_labels(rules, paths[0]).contains(l) by {
                if matched_labels(rules, paths[0]).contains(l) {
                    let i = choose|i: int| 0 <= i < rules.len() && (#[trigger] rules[i]).1 == l && is_suffix_of(rules[i].0, paths[0]);
                }
            }
            assert forall|l: Seq<char>| !literal_labels(rules, paths[0]).contains(l) by {
                if literal_labels(rules, paths[0]).contains(l) {
                    let i = choose|i: int| 0 <= i < rules.len() && (#[trigger] rules[i]).1 == l && rules[i].0 == paths[0];
                }
            }
        }
        assert(states@[0].fail == 0);
        assert forall|s: int| 0 <= s < n && paths[s].len() <= 0 implies links_ok(states@, rules, paths, s) by {
            assert(paths[s] =~= paths[0]);
        }
    }
    let mut k: usize = 0;
    while k < n
        invariant
            valid_rules(rules),
            n == states@.len(),
            trie_ok(trie, tokens@, paths),
            paths_exact(rules, paths),
            same_shape(trie, states@),
            k <= n,
            states@[0].fail == 0,
            outputs_are(states@, 0, matched_labels(rules, paths[0])),
            forall|s: int| 0 <= s < n && paths[s].len() <= k ==> links_ok(states@, rules, paths, s),
            forall|s: int|
                0 <= s < n ==> links_ok(states@, rules, paths, s) || outputs_are(
                    states@,
                    s,
                    literal_labels(rules, paths[s]),
                ),
        decreases n - k,
    {
        let mut r: usize = 0;
        while r < n
            invariant
                valid_rules(rules),
                n == states@.len(),
                trie_ok(trie, tokens@, paths),
                paths_exact(rules, paths),
                same_shape(trie, states@),
                k < n,
                r <= n,
                states@[0].fail == 0,
                outputs_are(states@, 0, matched_labels(rules, paths[0])),
                forall|s: int| 0 <= s < n && paths[s].len() <= k ==> links_ok(states@, rules, paths, s),
                forall|s: int|
                    0 <= s < n ==> links_ok(states@, rules, paths, s) || outputs_are(
                        states@,
                        s,
                        literal_labels(rules, paths[s]),
                    ),
                forall|p: int, e: int|
                    0 <= p < r && paths[p].len() == k && 0 <= e < trie[p].goto_@.len() ==> links_ok(
                        states@,
                        rules,
                        paths,
                        (#[trigger] trie[p].goto_@[e]).1 as int,
                    ),
            decreases n - r,
        {
            proof {
                lemma_trie_ok_same_shape(trie, states@, tokens@, paths);
            }
            if states[r].depth == k {
                let ne = states[r].goto_.len();
                let mut e: usize = 0;
                while e < ne
                    invariant
                        valid_rules(rules),
                        n == states@.len(),
                        trie_ok(trie, tokens@, paths),
                        paths_exact(rules, paths),
                        same_shape(trie, states@),
                        k < n,
                        r < n,
                        paths[r as int].len() == k,
                        ne == trie[r as int].goto_@.len(),
                        e <= ne,
                        states@[0].fail == 0,
                        outputs_are(states@, 0, matched_labels(rules, paths[0])),
                        forall|s: int| 0 <= s < n && paths[s].len() <= k ==> links_ok(states@, rules, paths, s),
                        forall|s: int|
                            0 <= s < n ==> links_ok(states@, rules, paths, s) || outputs_are(
                                states@,
                                s,
                                literal_labels(rules, paths[s]),
                            ),
                        forall|p: int, e2: int|
                            0 <= p < r && paths[p].len() == k && 0 <= e2 < trie[p].goto_@.len() ==> links_ok(
                                states@,
                                rules,
                                paths,
                                (#[trigger] trie[p].goto_@[e2]).1 as int,
                            ),
                        forall|e2: int| 0 <= e2 < e ==> links_ok(
                            states@,
                            rules,
                            paths,
                            (#[trigger] trie[r as int].goto_@[e2]).1 as int,
                        ),
                    decreases ne - e,
                {
                    proof {
                        lemma_trie_ok_same_shape(trie, states@, tokens@, paths);
                    }
                    let (sym, c) = states[r].goto_[e];
                    let ghost w = paths[c as int];
                    let ghost a = tokens@[sym as int]@;
                    proof {
                        assert(edge_ok(tokens@, paths, r as int, trie[r as int].goto_@[e as int]));
                        assert(w == paths[r as int].push(a));
                        assert(c != 0);
                    }
                    let f_next: usize = if r == 0 {
                        proof {
                            assert(w.drop_first() =~= Seq::<Seq<char>>::empty());
                        }
                        0
                    } else {
                        let fr = states[r].fail;
                        proof {
                            assert(paths[r as int].len() > 0) by {
                                if paths[r as int].len() == 0 {
                                    assert(paths[r as int] =~= paths[0]);
                                }
                            }
                            let d = paths[r as int].drop_first();
                            assert(links_ok(states@, rules, paths, r as int));
                            lemma_lts_basic(rules, d);
                            assert(w.drop_first() =~= d.push(a));
                            lemma_lts_push(rules, d, a);
                        }
                        climb(&states, fr, sym, Ghost(tokens@), Ghost(rules), Ghost(paths))
                    };
                    proof {
                        lemma_lts_basic(rules, w.drop_first());
                        assert(paths[f_next as int].len() <= k);
                        assert(links_ok(states@, rules, paths, f_next as int));
                        lemma_matched_split(rules, w);
                    }
                    let ghost before = states@;
                    states[c].fail = f_next;
                    let nf = states[f_next].outputs.len();
                    let mut q: usize = 0;
                    while q < nf
                        invariant
                            n == states@.len(),
                            c < n,
                            f_next < n,
                            f_next != c,
                            nf == states@[f_next as int].outputs@.len(),
                            q <= nf,
                            states@[f_next as int] == before[f_next as int],
                            states@[c as int].fail == f_next,
                            states@[c as int].goto_ == before[c as int].goto_,
                            states@[c as int].depth == before[c as int].depth,
                            forall|s: int| 0 <= s < n && s != c ==> #[trigger] states@[s] == before[s],
                            ascending(strings_view(before[c as int].outputs@)) ==> ascending(strings_view(
                                states@[c as int].outputs@,
                            )),
                            strings_view(states@[c as int].outputs@).to_set() == strings_view(
                                before[c as int].outputs@,
                            ).to_set().union(strings_view(states@[f_next as int].outputs@.take(q as int)).to_set()),
                        decreases nf - q,
                    {
                        let lbl = states[f_next].outputs[q].clone();
                        let ghost o1 = states@[c as int].outputs@;
                        add_output(&mut states[c].outputs, &lbl);
                        proof {
                            let fo = states@[f_next as int].outputs@;
                            assert(strings_view(fo.take(q + 1)) =~= strings_view(fo.take(q as int)).push(lbl@));
                            strings_view(fo.take(q as int)).lemma_push_to_set_commute(lbl@);
                            assert(strings_view(states@[c as int].outputs@).to_set() =~= strings_view(
                                before[c as int].outputs@,
                            ).to_set().union(strings_view(fo.take(q + 1)).to_set()));
                        }
                        q += 1;
                    }
                    proof {
                        let fo = states@[f_next as int].outputs@;
                        assert(fo.take(nf as int) =~= fo);
                        let lit = literal_labels(rules, w);
                        let m = matched_labels(rules, w);
                        let mf = matched_labels(rules, paths[f_next as int]);
                        assert(lit.subset_of(m));
                        assert(mf.subset_of(m));
                        assert(links_ok(before, rules, paths, c as int) || outputs_are(before, c as int, lit));
                        assert(strings_view(fo).to_set() == mf);
                        assert(strings_view(states@[c as int].outputs@).to_set() =~= m);
                        assert(links_ok(states@, rules, paths, c as int));
                        assert forall|s: int| 0 <= s < n && paths[s].len() <= k implies links_ok(states@, rules, paths, s) by {
                            assert(s != c);
                            assert(states@[s] == before[s]);
                            assert(links_ok(before, rules, paths, s));
                        }
                        assert forall|s: int| 0 <= s < n implies links_ok(states@, rules, paths, s) || outputs_are(
                                states@,
                                s,
                                literal_labels(rules, paths[s]),
                            ) by {
                            if s != c {
                                assert(states@[s] == before[s]);
                                assert(links_ok(before, rules, paths, s) || outputs_are(before, s, literal_labels(rules, paths[s])));
                            }
                        }
                        assert forall|p: int, e2: int|
                            0 <= p < r && paths[p].len() == k && 0 <= e2 < trie[p].goto_@.len() implies links_ok(
                                states@,
                                rules,
                                paths,
                                (#[trigger] trie[p].goto_@[e2]).1 as int,
                            ) by {
                            let x = trie[p].goto_@[e2].1 as int;
                            if x != c {
                                assert(states@[x] == before[x]);
                                assert(links_ok(before, rules, paths, x));
                            }
                        }
                        assert forall|e2: int| 0 <= e2 < e + 1 implies links_ok(
                            states@,
                            rules,
                            paths,
                            (#[trigger] trie[r as int].goto_@[e2]).1 as int,
                        ) by {
                            let x = trie[r as int].goto_@[e2].1 as int;
                            if x != c {
                                assert(states@[x] == before[x]);
                                assert(links_ok(before, rules, paths, x));
                            }
                        }
                        assert(same_shape(trie, states@));
                    }
                    e += 1;
                }
            }
            r += 1;
        }
        proof {
            assert forall|s: int| 0 <= s < n && paths[s].len() <= k + 1 implies links_ok(states@, rules, paths, s) by {
                if paths[s].len() == k + 1 {
                    assert(s != 0);
                    assert(has_parent(trie, s));
                    let (p, e) = choose|p: int, e: int|
                        0 <= p < trie.len() && 0 <= e < trie[p].goto_@.len() && (#[trigger] trie[p].goto_@[e]).1 == s;
                    assert(edge_ok(tokens@, paths, p, trie[p].goto_@[e]));
                }
            }
        }
        k += 1;
    }
    proof {
        lemma_trie_ok_same_shape(trie, states@, tokens@, paths);
        assert forall|s: int| 0 <= s < orig.len() implies (#[trigger] orig[s]).goto_ == states@[s].goto_
            && orig[s].depth == states@[s].depth by {
            assert(trie[s].goto_ == orig[s].goto_);
            assert(trie[s].goto_ == states@[s].goto_);
        }
    }
    states
}

/// Where no rule uses `a`, no non-empty trie word ends with it.
proof fn lemma_unused_token(rules: Seq<RuleSpec>, w: Word, a: Seq<char>)
    requires
        !uses_token(rules, a),
    ensures
        longest_trie_suffix(rules, w.push(a)).len() == 0,
{
    let l = longest_trie_suffix(rules, w.push(a));
    lemma_lts_basic(rules, w.push(a));
    if l.len() > 0 {
        lemma_suffix_of_push(l, w, a);
        let i = choose|i: int| 0 <= i < rules.len() && is_prefix_of(l, #[trigger] rules[i].0);
        assert(rules[i].0[l.len() - 1] == l[l.len() - 1]);
    }
}

impl Automaton {
    /// The rules the automaton was built from.
    pub closed spec fn rules(&self) -> Seq<RuleSpec> {
        self.rules@
    }

    /// The word that leads from the root to each state, by state index.
    pub closed spec fn paths(&self) -> Seq<Word> {
        self.paths@
    }

    pub open spec fn num_states(&self) -> nat {
        self.paths().len()
    }

    pub open spec fn path(&self, s: int) -> Word {
        self.paths()[s]
    }

    /// The labels that state `s` reports: those of the rules whose sequence is a
    /// suffix of the state's path.
    pub open spec fn outputs_of(&self, s: int) -> Set<Seq<char>> {
        matched_labels(self.rules(), self.path(s))
    }

    /// The state whose path is `w`.
    pub open spec fn state_of(&self, w: Word) -> int {
        choose|s: int| 0 <= s < self.num_states() && self.path(s) == w
    }

    /// The transition function: from `cur` on `tok`, the state of the longest
    /// trie suffix of `cur`'s path extended by `tok`.
    pub open spec fn next_state(&self, cur: int, tok: Seq<char>) -> int {
        self.state_of(longest_trie_suffix(self.rules(), self.path(cur).push(tok)))
    }

    /// The state reached from `cur` by feeding `toks` in order.
    pub open spec fn run(&self, cur: int, toks: Word) -> int
        decreases toks.len(),
    {
        if toks.len() == 0 {
            cur
        } else {
            self.next_state(self.run(cur, toks.drop_last()), toks.last())
        }
    }

    /// The failure link of state `s`: the state of the longest proper suffix of its
    /// path that labels a trie node (the root for the root).
    pub open spec fn fail_of(&self, s: int) -> int {
        if s == 0 {
            0
        } else {
            self.state_of(longest_trie_suffix(self.rules(), self.path(s).drop_first()))
        }
    }

    /// The automaton is the trie of its rules with complete failure links and outputs.
    pub closed spec fn wf(&self) -> bool {
        &&& valid_rules(self.rules@)
        &&& self.paths@ == trie_paths(self.rules@, self.rules@.len())
        &&& self.start == 0
        &&& self.states@.len() <= usize::MAX
        &&& trie_ok(self.states@, self.token_by_sym@, self.paths@)
        &&& paths_exact(self.rules@, self.paths@)
        &&& tokens_cover(self.rules@, self.rules@.len() as int, self.token_by_sym@)
        &&& forall|s: int| 0 <= s < self.states@.len() ==> links_ok(self.states@, self.rules@, self.paths@, s)
    }

    /// What a well-formed automaton is: its states are numbered as `trie_paths` gives
    /// them, the root is state 0, and each trie word is the path of exactly one state.
    pub proof fn lemma_wf(&self)
        requires
            self.wf(),
        ensures
            valid_rules(self.rules()),
            self.paths() == trie_paths(self.rules(), self.rules().len()),
            self.num_states() >= 1,
            self.num_states() <= usize::MAX,
            self.path(0) == Seq::<Seq<char>>::empty(),
            forall|s: int| 0 <= s < self.num_states() ==> in_trie(self.rules(), #[trigger] self.path(s)),
            forall|s1: int, s2: int|
                0 <= s1 < self.num_states() && 0 <= s2 < self.num_states() && s1 != s2 ==> self.path(s1)
                    != self.path(s2),
    {
        assert forall|s: int| 0 <= s < self.num_states() implies in_trie(self.rules(), #[trigger] self.path(s)) by {
            assert(self.paths@.contains(self.paths@[s]));
        }
    }

    /// Each trie word is the path of exactly one state, `state_of` it.
    pub proof fn lemma_state_of(&self, w: Word)
        requires
            self.wf(),
            in_trie(self.rules(), w),
        ensures
            0 <= self.state_of(w) < self.num_states(),
            self.path(self.state_of(w)) == w,
            forall|s: int| 0 <= s < self.num_states() && self.path(s) == w ==> s == self.state_of(w),
    {
        assert(self.paths@.contains(w));
        let k = choose|k: int| 0 <= k < self.paths@.len() && self.paths@[k] == w;
        assert(self.path(k) == w);
    }

    /// Builds the automaton of an ordered rule list: the trie of all sequences, then
    /// the failure links and the complete output sets.
    pub fn from_combos(combos: &[Rule]) -> (r: Self)
        requires
            valid_rules(rules_view(combos@)),
        ensures
            r.wf(),
            r.rules() == rules_view(combos@),
            combos@.len() == 0 ==> r.num_states() == 1,
    {
        let ghost rules = rules_view(combos@);
        let ghost paths = trie_paths(rules, rules.len());
        let (trie_states, token_by_sym) = build_trie(combos);
        proof {
            lemma_trie_paths(rules, rules.len());
            assert forall|x: Word| #[trigger] paths.contains(x) <==> in_trie(rules, x) by {
                lemma_prefix_among_in_trie(rules, x);
            }
        }
        let states = failure_links(trie_states, &token_by_sym, Ghost(rules), Ghost(paths));
        let _n = states.len();
        Automaton { states, start: 0, token_by_sym, rules: Ghost(rules), paths: Ghost(paths) }
    }

    /// One transition: from state `cur` on token `internal_tok`, the next state and
    /// the labels it reports, in ascending order. A token that no rule uses leads
    /// back to the root with no output.
    pub fn step(&self, cur: usize, internal_tok: &str) -> (r: (usize, Vec<String>))
        requires
            self.wf(),
            cur < self.num_states(),
        ensures
            r.0 < self.num_states(),
            r.0 == self.next_state(cur as int, internal_tok@),
            self.path(r.0 as int) == longest_trie_suffix(self.rules(), self.path(cur as int).push(internal_tok@)),
            strings_view(r.1@) == sorted_labels(self.outputs_of(r.0 as int)),
            ascending(strings_view(r.1@)),
            strings_view(r.1@).no_duplicates(),
            strings_view(r.1@).to_set() == self.outputs_of(r.0 as int),
            self.outputs_of(r.0 as int) == matched_labels(self.rules(), self.path(cur as int).push(internal_tok@)),
            !uses_token(self.rules(), internal_tok@) ==> r.0 == 0 && r.1@.len() == 0,
    {
        let ghost w = self.path(cur as int).push(internal_tok@);
        let ghost l = longest_trie_suffix(self.rules(), w);
        proof {
            lemma_lts_basic(self.rules(), w);
            self.lemma_state_of(l);
            lemma_matched_lts(self.rules(), w);
        }
        let tok = internal_tok.to_owned();
        match find_token(&self.token_by_sym, &tok) {
            None => {
                proof {
                    if uses_token(self.rules(), internal_tok@) {
                        let (i, j) = choose|i: int, j: int|
                            0 <= i < self.rules().len() && 0 <= j < self.rules()[i].0.len() && #[trigger] self.rules()[i].0[j]
                                == internal_tok@;
                        assert(strings_view(self.token_by_sym@).contains(self.rules@[i].0[j]));
                    }
                    lemma_unused_token(self.rules(), self.path(cur as int), internal_tok@);
                    assert(l =~= self.path(0));
                    assert(links_ok(self.states@, self.rules@, self.paths@, 0));
                    assert(matched_labels(self.rules(), self.path(0)) =~= Set::empty()) by {
                        assert forall|x: Seq<char>| !matched_labels(self.rules(), self.path(0)).contains(x) by {
                            if matched_labels(self.rules(), self.path(0)).contains(x) {
                                let i = choose|i: int| 0 <= i < self.rules().len() && (#[trigger] self.rules()[i]).1 == x && is_suffix_of(self.rules()[i].0, self.path(0));
                            }
                        }
                    }
                }
                let none: Vec<String> = Vec::new();
                proof {
                    assert(strings_view(none@) =~= Seq::<Seq<char>>::empty());
                    assert(strings_view(none@).to_set() =~= Set::empty());
                    lemma_sorted_labels(strings_view(none@));
                }
                (self.start, none)
            },
            Some(sym) => {
                let next = climb(&self.states, cur, sym, Ghost(self.token_by_sym@), Ghost(self.rules@), Ghost(self.paths@));
                proof {
                    assert(links_ok(self.states@, self.rules@, self.paths@, next as int));
                    if !uses_token(self.rules(), internal_tok@) {
                        lemma_unused_token(self.rules(), self.path(cur as int), internal_tok@);
                        assert(l =~= self.path(0));
                        assert(next == 0);
                        assert(matched_labels(self.rules(), self.path(0)) =~= Set::empty()) by {
                            assert forall|x: Seq<char>| !matched_labels(self.rules(), self.path(0)).contains(x) by {
                                if matched_labels(self.rules(), self.path(0)).contains(x) {
                                    let i = choose|i: int| 0 <= i < self.rules().len() && (#[trigger] self.rules()[i]).1 == x && is_suffix_of(self.rules()[i].0, self.path(0));
                                }
                            }
                        }
                    }
                }
                let outs = self.states[next].outputs.clone();
                proof {
                    assert(strings_view(outs@) =~= strings_view(self.states@[next as int].outputs@));
                    lemma_sorted_labels(strings_view(outs@));
                    if !uses_token(self.rules(), internal_tok@) {
                        assert(strings_view(outs@).to_set().len() == 0);
                        if outs@.len() > 0 {
                            assert(strings_view(outs@).to_set().contains(strings_view(outs@)[0]));
                        }
                    }
                }
                (next, outs)
            },
        }
    }

    /// The output labels of state `idx` and its failure link, for diagnostics.
    pub fn state_info(&self, idx: usize) -> (r: (Vec<String>, usize))
        requires
            self.wf(),
            idx < self.num_states(),
        ensures
            strings_view(r.0@) == sorted_labels(self.outputs_of(idx as int)),
            ascending(strings_view(r.0@)),
            strings_view(r.0@).no_duplicates(),
            strings_view(r.0@).to_set() == self.outputs_of(idx as int),
            r.1 == self.fail_of(idx as int),
    {
        proof {
            assert(links_ok(self.states@, self.rules@, self.paths@, idx as int));
            if idx != 0 {
                let f = self.states@[idx as int].fail as int;
                assert(self.paths@.contains(self.paths@[f]));
                self.lemma_state_of(self.path(f));
            }
        }
        let outs = self.states[idx].outputs.clone();
        proof {
            assert(strings_view(outs@) =~= strings_view(self.states@[idx as int].outputs@));
            lemma_sorted_labels(strings_view(outs@));
        }
        (outs, self.states[idx].fail)
    }
}

impl Automaton {
    /// Feeding `toks` from state `cur` ends in the state whose path is the longest
    /// trie suffix of `cur`'s path followed by `toks`.
    pub proof fn lemma_run_path(&self, cur: int, toks: Word)
        requires
            self.wf(),
            0 <= cur < self.num_states(),
        ensures
            0 <= self.run(cur, toks) < self.num_states(),
            self.path(self.run(cur, toks)) == longest_trie_suffix(self.rules(), self.path(cur) + toks),
        decreases toks.len(),
    {
        self.lemma_wf();
        if toks.len() == 0 {
            assert(self.path(cur) + toks =~= self.path(cur));
            assert(in_trie(self.rules(), self.path(cur)));
        } else {
            let prev = toks.drop_last();
            let a = toks.last();
            self.lemma_run_path(cur, prev);
            let x = self.path(cur) + prev;
            lemma_lts_push(self.rules(), x, a);
            lemma_lts_basic(self.rules(), x.push(a));
            self.lemma_state_of(longest_trie_suffix(self.rules(), x.push(a)));
            assert(x.push(a) =~= self.path(cur) + toks);
        }
    }

    /// Whenever a rule's whole sequence is a suffix of the tokens fed from the root,
    /// however they began, the state reached reports that rule's label.
    pub proof fn lemma_suffix_fires(&self, toks: Word, i: int)
        requires
            self.wf(),
            0 <= i < self.rules().len(),
            is_suffix_of(self.rules()[i].0, toks),
        ensures
            self.outputs_of(self.run(0, toks)).contains(self.rules()[i].1),
    {
        self.lemma_wf();
        self.lemma_run_path(0, toks);
        assert(self.path(0) + toks =~= toks);
        lemma_matched_lts(self.rules(), toks);
        assert(matched_labels(self.rules(), toks).contains(self.rules()[i].1));
    }

    /// Feeding a rule's sequence from the root ends in a state that reports its label.
    pub proof fn lemma_rule_fires(&self, i: int)
        requires
            self.wf(),
            0 <= i < self.rules().len(),
        ensures
            self.outputs_of(self.run(0, self.rules()[i].0)).contains(self.rules()[i].1),
    {
        lemma_suffix_refl(self.rules()[i].0);
        self.lemma_suffix_fires(self.rules()[i].0, i);
    }

    /// Two automatons built from the same rules have the same states, the same
    /// transitions and the same outputs.
    pub proof fn lemma_same_rules_same_steps(a1: &Automaton, a2: &Automaton, cur: int, tok: Seq<char>)
        requires
            a1.wf(),
            a2.wf(),
            a1.rules() == a2.rules(),
        ensures
            a1.num_states() == a2.num_states(),
            a1.next_state(cur, tok) == a2.next_state(cur, tok),
            a1.outputs_of(a1.next_state(cur, tok)) == a2.outputs_of(a2.next_state(cur, tok)),
            a1.fail_of(cur) == a2.fail_of(cur),
    {
        assert(a1.paths() == a2.paths());
        let rules = a1.rules();
        let w = longest_trie_suffix(rules, a1.path(cur).push(tok));
        lemma_lts_basic(rules, a1.path(cur).push(tok));
        a1.lemma_state_of(w);
        a2.lemma_state_of(w);
        if cur != 0 {
            let d = longest_trie_suffix(rules, a1.path(cur).drop_first());
            lemma_lts_basic(rules, a1.path(cur).drop_first());
            a1.lemma_state_of(d);
            a2.lemma_state_of(d);
        }
    }
}

impl Automaton {
    /// Every failure link but the root's leads to a state with a strictly shorter
    /// path, so following failure links always ends at the root.
    pub proof fn lemma_fail_shorter(&self, s: int)
        requires
            self.wf(),
            0 < s < self.num_states(),
        ensures
            0 <= self.fail_of(s) < self.num_states(),
            self.path(self.fail_of(s)).len() < self.path(s).len(),
    {
        self.lemma_wf();
        assert(self.path(s).len() > 0) by {
            if self.path(s).len() == 0 {
                assert(self.path(s) =~= self.path(0));
            }
        }
        let d = self.path(s).drop_first();
        lemma_lts_basic(self.rules(), d);
        self.lemma_state_of(longest_trie_suffix(self.rules(), d));
    }
}

} // verus!
