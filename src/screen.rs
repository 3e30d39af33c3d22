use vstd::prelude::*;

use std::collections::VecDeque;

use crate::automaton::strings_view;
use crate::engine::{
    bindings, combos_internal, current_state_info, display_for_internal, display_text, first_hit,
    matched_prefix_len, pairs_view, step_keytok, EngineConfig, EngineState,
};
use crate::text::{decimal, join, pad_left, push_decimal, push_padded, sorted_labels};

verus! {

/// How many recent outputs the screen keeps.
pub const RECENT_CAP: usize = 8;

/// What the front end hands the view: a key token, or the wish to quit.
pub enum AppEvent {
    KeyTok(String),
    Quit,
}

/// The front end's state: the session and the most recent outputs, oldest first.
pub struct ViewState {
    pub engine: EngineState,
    pub recent_msgs: VecDeque<String>,
}

/// `msgs` after `x` arrives: the oldest leaves once there are `RECENT_CAP`.
pub open spec fn push_recent(msgs: Seq<Seq<char>>, x: Seq<char>) -> Seq<Seq<char>> {
    if msgs.len() >= RECENT_CAP {
        msgs.drop_first().push(x)
    } else {
        msgs.push(x)
    }
}

/// `msgs` after each of `outs` arrives, in order.
pub open spec fn push_all_recent(msgs: Seq<Seq<char>>, outs: Seq<Seq<char>>) -> Seq<Seq<char>>
    decreases outs.len(),
{
    if outs.len() == 0 {
        msgs
    } else {
        push_recent(push_all_recent(msgs, outs.drop_last()), outs.last())
    }
}

pub open spec fn deque_view(d: VecDeque<String>) -> Seq<Seq<char>> {
    d@.map_values(|s: String| s@)
}

/// The view after one event at time `now_ms`: a key token advances the session and
/// adds what it produced, in ascending order, to the recent outputs; quitting
/// changes nothing.
pub fn reduce(cfg: &EngineConfig, vs: &ViewState, ev: AppEvent, now_ms: u128) -> (r: ViewState)
    requires
        cfg.wf(),
        cfg.valid_state(vs.engine),
    ensures
        cfg.valid_state(r.engine),
        ev is Quit ==> r.engine == vs.engine && deque_view(r.recent_msgs) == deque_view(vs.recent_msgs),
        ev matches AppEvent::KeyTok(tok) ==> r.engine == cfg.advance(vs.engine, tok@, now_ms).0 && deque_view(
            r.recent_msgs,
        ) == push_all_recent(deque_view(vs.recent_msgs), sorted_labels(cfg.advance(vs.engine, tok@, now_ms).1)),
{
    let mut msgs = vs.recent_msgs.clone();
    proof {
        assert(deque_view(msgs) =~= deque_view(vs.recent_msgs));
    }
    match ev {
        AppEvent::Quit => ViewState { engine: vs.engine, recent_msgs: msgs },
        AppEvent::KeyTok(tok) => {
            let (engine2, outs) = step_keytok(cfg, vs.engine, tok.as_str(), now_ms);
            let ghost o = strings_view(outs@);
            let mut i: usize = 0;
            assert(o.take(0) =~= Seq::<Seq<char>>::empty());
            while i < outs.len()
                invariant
                    o == strings_view(outs@),
                    i <= outs@.len(),
                    deque_view(msgs) == push_all_recent(deque_view(vs.recent_msgs), o.take(i as int)),
                decreases outs@.len() - i,
            {
                let ghost before = deque_view(msgs);
                if msgs.len() >= RECENT_CAP {
                    msgs.pop_front();
                }
                msgs.push_back(outs[i].clone());
                proof {
                    assert(o.take(i + 1).drop_last() =~= o.take(i as int));
                    assert(o.take(i + 1).last() == outs@[i as int]@);
                    assert(deque_view(msgs) =~= push_recent(before, outs@[i as int]@));
                }
                i += 1;
            }
            assert(o.take(i as int) =~= o);
            ViewState { engine: engine2, recent_msgs: msgs }
        },
    }
}

/// One line of text on screen, with its colour.
pub struct UiLine {
    pub text: String,
    pub rgb: (u8, u8, u8),
}

pub open spec fn line_view(l: UiLine) -> (Seq<char>, (u8, u8, u8)) {
    (l.text@, l.rgb)
}

pub open spec fn lines_view(ls: Seq<UiLine>) -> Seq<(Seq<char>, (u8, u8, u8))> {
    ls.map_values(|l: UiLine| line_view(l))
}

/// Everything the screen shows, before layout.
pub struct UiModel {
    pub left_title: UiLine,
    pub left_bindings: Vec<UiLine>,
    pub combos_title: UiLine,
    pub combos_lines: Vec<UiLine>,
    pub right_title: UiLine,
    pub cur_state_line: UiLine,
    pub fail_line: UiLine,
    pub outs_title: UiLine,
    pub outs_lines: Vec<UiLine>,
    pub recent_title: UiLine,
    pub recent_lines: Vec<UiLine>,
    pub footer: UiLine,
}

pub open spec fn col_norm() -> (u8, u8, u8) {
    (220, 220, 220)
}

pub open spec fn col_hit() -> (u8, u8, u8) {
    (160, 240, 200)
}

pub open spec fn col_bind() -> (u8, u8, u8) {
    (230, 230, 230)
}

pub open spec fn col_out() -> (u8, u8, u8) {
    (255, 215, 130)
}

pub open spec fn col_recent() -> (u8, u8, u8) {
    (255, 255, 160)
}

/// The text of a binding line: the key right-aligned in twelve columns, an arrow,
/// the internal token.
pub open spec fn binding_text(key: Seq<char>, internal: Seq<char>) -> Seq<char> {
    pad_left(key, 12) + "  \u{2192}  "@ + internal
}

/// The text of a combo line: each step as its keys are shown, then the label.
pub open spec fn combo_text(bs: Seq<(Seq<char>, Seq<char>)>, steps: Seq<Seq<char>>, mv: Seq<char>) -> Seq<char> {
    join(steps.map_values(|s: Seq<char>| display_text(bs, s)), " , "@) + "  =>  "@ + mv
}

fn copy_line(l: &UiLine) -> (r: UiLine)
    ensures
        line_view(r) == line_view(*l),
{
    UiLine { text: l.text.clone(), rgb: l.rgb }
}

fn binding_lines(cfg: &EngineConfig) -> (r: Vec<UiLine>)
    ensures
        r@.len() == cfg.bindings_display@.len(),
        forall|i: int|
            0 <= i < r@.len() ==> line_view(#[trigger] r@[i]) == (
                binding_text(cfg.bindings_display@[i].0@, cfg.bindings_display@[i].1@),
                col_bind(),
            ),
{
    let bs = bindings(cfg);
    let mut out: Vec<UiLine> = Vec::new();
    let mut i: usize = 0;
    while i < bs.len()
        invariant
            bs@ == cfg.bindings_display@,
            i <= bs@.len(),
            out@.len() == i,
            forall|k: int|
                0 <= k < i ==> line_view(#[trigger] out@[k]) == (
                    binding_text(bs@[k].0@, bs@[k].1@),
                    col_bind(),
                ),
        decreases bs@.len() - i,
    {
        let mut text = String::new();
        push_padded(&mut text, bs[i].0.as_str(), 12);
        text.append("  \u{2192}  ");
        text.append(bs[i].1.as_str());
        out.push(UiLine { text, rgb: (230, 230, 230) });
        i += 1;
    }
    out
}

fn combo_line(cfg: &EngineConfig, steps: &Vec<String>, mv: &String) -> (r: String)
    ensures
        r@ == combo_text(pairs_view(cfg.bindings_display@), strings_view(steps@), mv@),
{
    let ghost bs = pairs_view(cfg.bindings_display@);
    let ghost shown = strings_view(steps@).map_values(|s: Seq<char>| display_text(bs, s));
    let mut line = String::new();
    let mut i: usize = 0;
    assert(shown.take(0) =~= Seq::<Seq<char>>::empty());
    while i < steps.len()
        invariant
            bs == pairs_view(cfg.bindings_display@),
            shown == strings_view(steps@).map_values(|s: Seq<char>| display_text(bs, s)),
            i <= steps@.len(),
            line@ == join(shown.take(i as int), " , "@),
        decreases steps@.len() - i,
    {
        proof {
            assert(shown.take(i + 1).drop_last() =~= shown.take(i as int));
        }
        if i > 0 {
            line.append(" , ");
        } else {
            assert(shown.take(1).len() == 1);
            assert(line@ =~= Seq::<char>::empty());
        }
        let lbl = display_for_internal(cfg, steps[i].as_str());
        line.append(lbl.as_str());
        proof {
            if i == 0 {
                assert(line@ =~= shown.take(1)[0]);
            }
        }
        i += 1;
    }
    assert(shown.take(i as int) =~= shown);
    line.append("  =>  ");
    line.append(mv.as_str());
    line
}

fn combo_lines(cfg: &EngineConfig, cur: usize) -> (r: Vec<UiLine>)
    requires
        cfg.wf(),
    ensures
        r@.len() == cfg.combos_internal@.len(),
        forall|i: int|
            0 <= i < r@.len() ==> line_view(#[trigger] r@[i]) == (
                combo_text(
                    pairs_view(cfg.bindings_display@),
                    strings_view(cfg.combos_internal@[i].0@),
                    cfg.combos_internal@[i].1@,
                ),
                if first_hit(cfg.automaton, cur as int, strings_view(cfg.combos_internal@[i].0@), 0) > 0 {
                    col_hit()
                } else {
                    col_norm()
                },
            ),
{
    let cs = combos_internal(cfg);
    let mut out: Vec<UiLine> = Vec::new();
    let mut i: usize = 0;
    while i < cs.len()
        invariant
            cfg.wf(),
            cs@ == cfg.combos_internal@,
            i <= cs@.len(),
            out@.len() == i,
            forall|k: int|
                0 <= k < i ==> line_view(#[trigger] out@[k]) == (
                    combo_text(pairs_view(cfg.bindings_display@), strings_view(cs@[k].0@), cs@[k].1@),
                    if first_hit(cfg.automaton, cur as int, strings_view(cs@[k].0@), 0) > 0 {
                        col_hit()
                    } else {
                        col_norm()
                    },
                ),
        decreases cs@.len() - i,
    {
        let prefix_len = matched_prefix_len(cfg, cur, cs[i].0.as_slice());
        let text = combo_line(cfg, &cs[i].0, &cs[i].1);
        let rgb = if prefix_len > 0 {
            (160, 240, 200)
        } else {
            (220, 220, 220)
        };
        out.push(UiLine { text, rgb });
        i += 1;
    }
    out
}

fn titled(text: &str, rgb: (u8, u8, u8)) -> (r: UiLine)
    ensures
        line_view(r) == (text@, rgb),
{
    UiLine { text: text.to_owned(), rgb }
}

fn prefixed_lines(items: &Vec<String>, prefix: &str, rgb: (u8, u8, u8)) -> (r: Vec<UiLine>)
    ensures
        r@.len() == items@.len(),
        forall|i: int| 0 <= i < r@.len() ==> line_view(#[trigger] r@[i]) == (prefix@ + items@[i]@, rgb),
{
    let mut out: Vec<UiLine> = Vec::new();
    let mut i: usize = 0;
    while i < items.len()
        invariant
            i <= items@.len(),
            out@.len() == i,
            forall|k: int| 0 <= k < i ==> line_view(#[trigger] out@[k]) == (prefix@ + items@[k]@, rgb),
        decreases items@.len() - i,
    {
        let mut text = prefix.to_owned();
        text.append(items[i].as_str());
        out.push(UiLine { text, rgb });
        i += 1;
    }
    out
}

/// What the screen shows for a view: the bindings, the combos (those the session
/// is part-way through highlighted), the automaton's state, and recent outputs.
pub fn build_ui_model(cfg: &EngineConfig, st: &ViewState) -> (r: UiModel)
    requires
        cfg.wf(),
        cfg.valid_state(st.engine),
    ensures
        line_view(r.left_title) == ("Keyboard bindings:"@, (200u8, 200u8, 255u8)),
        r.left_bindings@.len() == cfg.bindings_display@.len(),
        forall|i: int|
            0 <= i < r.left_bindings@.len() ==> line_view(#[trigger] r.left_bindings@[i]) == (
                binding_text(cfg.bindings_display@[i].0@, cfg.bindings_display@[i].1@),
                col_bind(),
            ),
        line_view(r.combos_title) == ("Available combos:"@, (200u8, 200u8, 255u8)),
        r.combos_lines@.len() == cfg.combos_internal@.len(),
        forall|i: int|
            0 <= i < r.combos_lines@.len() ==> line_view(#[trigger] r.combos_lines@[i]) == (
                combo_text(
                    pairs_view(cfg.bindings_display@),
                    strings_view(cfg.combos_internal@[i].0@),
                    cfg.combos_internal@[i].1@,
                ),
                if first_hit(
                    cfg.automaton,
                    st.engine.cur_state as int,
                    strings_view(cfg.combos_internal@[i].0@),
                    0,
                ) > 0 {
                    col_hit()
                } else {
                    col_norm()
                },
            ),
        line_view(r.right_title) == ("Automaton"@, (200u8, 255u8, 200u8)),
        line_view(r.cur_state_line) == ("Current state: "@ + decimal(st.engine.cur_state as nat), col_norm()),
        line_view(r.fail_line) == (
            "Fail link: "@ + if st.engine.cur_state == 0 && st.engine.last_time_ms is Some {
                "true"@
            } else {
                "false"@
            },
            (200u8, 200u8, 200u8),
        ),
        line_view(r.outs_title) == ("Outputs at state:"@, (200u8, 200u8, 200u8)),
        r.outs_lines@.len() == sorted_labels(cfg.automaton.outputs_of(st.engine.cur_state as int)).len(),
        forall|i: int|
            0 <= i < r.outs_lines@.len() ==> line_view(#[trigger] r.outs_lines@[i]) == (
                "\u{2022} "@ + sorted_labels(cfg.automaton.outputs_of(st.engine.cur_state as int))[i],
                col_out(),
            ),
        line_view(r.recent_title) == ("Recent:"@, (200u8, 200u8, 200u8)),
        r.recent_lines@.len() == st.recent_msgs@.len(),
        forall|i: int|
            0 <= i < r.recent_lines@.len() ==> line_view(#[trigger] r.recent_lines@[i]) == (
                st.recent_msgs@[i]@,
                col_recent(),
            ),
        line_view(r.footer) == ("Exit: Esc o ctrl-c"@, (160u8, 160u8, 160u8)),
{
    let left_bindings = binding_lines(cfg);
    let combos_lines = combo_lines(cfg, st.engine.cur_state);
    let (outs_now, fail) = current_state_info(cfg, st.engine);
    let outs_lines = prefixed_lines(&outs_now, "\u{2022} ", (255, 215, 130));
    let mut recent_lines: Vec<UiLine> = Vec::new();
    let mut i: usize = 0;
    while i < st.recent_msgs.len()
        invariant
            i <= st.recent_msgs@.len(),
            recent_lines@.len() == i,
            forall|k: int|
                0 <= k < i ==> line_view(#[trigger] recent_lines@[k]) == (st.recent_msgs@[k]@, col_recent()),
        decreases st.recent_msgs@.len() - i,
    {
        recent_lines.push(UiLine { text: st.recent_msgs[i].clone(), rgb: (255, 255, 160) });
        i += 1;
    }
    let mut cur_text = "Current state: ".to_owned();
    push_decimal(&mut cur_text, st.engine.cur_state as u128);
    let mut fail_text = "Fail link: ".to_owned();
    fail_text.append(if fail {
        "true"
    } else {
        "false"
    });
    UiModel {
        left_title: titled("Keyboard bindings:", (200, 200, 255)),
        left_bindings,
        combos_title: titled("Available combos:", (200, 200, 255)),
        combos_lines,
        right_title: titled("Automaton", (200, 255, 200)),
        cur_state_line: UiLine { text: cur_text, rgb: (220, 220, 220) },
        fail_line: UiLine { text: fail_text, rgb: (200, 200, 200) },
        outs_title: titled("Outputs at state:", (200, 200, 200)),
        outs_lines,
        recent_title: titled("Recent:", (200, 200, 200)),
        recent_lines,
        footer: titled("Exit: Esc o ctrl-c", (160, 160, 160)),
    }
}

/// A line of text placed on screen.
pub struct TextNode {
    pub x: i32,
    pub y: i32,
    pub line: UiLine,
}

/// A frame to draw: a background colour and placed text.
pub struct Scene {
    pub bg: (u8, u8, u8),
    pub texts: Vec<TextNode>,
}

pub open spec fn node_view(n: TextNode) -> (int, int, (Seq<char>, (u8, u8, u8))) {
    (n.x as int, n.y as int, line_view(n.line))
}

pub open spec fn nodes_view(v: Seq<TextNode>) -> Seq<(int, int, (Seq<char>, (u8, u8, u8)))> {
    v.map_values(|n: TextNode| node_view(n))
}

/// `lines` one under the other from `(x, y0)`, `lh` apart.
pub open spec fn column(lines: Seq<UiLine>, x: int, y0: int, lh: int) -> Seq<(int, int, (Seq<char>, (u8, u8, u8)))> {
    Seq::new(lines.len(), |i: int| (x, y0 + i * lh, line_view(lines[i])))
}

/// The distance between lines for a font of height `font_h`.
pub open spec fn line_height(font_h: i32) -> int {
    (if font_h >= 16 {
        font_h as int
    } else {
        16
    }) + 6
}

/// Where everything goes: bindings then combos on the left; the automaton's state,
/// its outputs and the recent outputs on the right; the footer at the bottom.
pub open spec fn scene_layout(ui: UiModel, font_h: i32) -> Seq<(int, int, (Seq<char>, (u8, u8, u8)))> {
    let lh = line_height(font_h);
    let y = 42 + ui.left_bindings@.len() * lh;
    seq![(16, 14, line_view(ui.left_title))] + column(ui.left_bindings@, 16, 42, lh) + seq![
        (16, y + 20, line_view(ui.combos_title)),
    ] + column(ui.combos_lines@, 16, y + 48, lh) + seq![
        (520, 14, line_view(ui.right_title)),
        (520, 40, line_view(ui.cur_state_line)),
        (520, 68, line_view(ui.fail_line)),
        (520, 96, line_view(ui.outs_title)),
    ] + column(ui.outs_lines@, 540, 120, lh) + seq![(520, 220, line_view(ui.recent_title))] + column(
        ui.recent_lines@,
        540,
        244,
        lh,
    ) + seq![(370, 572, line_view(ui.footer))]
}

fn push_node(texts: &mut Vec<TextNode>, x: i32, y: i32, line: &UiLine)
    ensures
        nodes_view(final(texts)@) == nodes_view(old(texts)@).push((x as int, y as int, line_view(*line))),
{
    let ghost before = texts@;
    texts.push(TextNode { x, y, line: copy_line(line) });
    assert(nodes_view(texts@) =~= nodes_view(before).push((x as int, y as int, line_view(*line))));
}

fn push_column(texts: &mut Vec<TextNode>, lines: &Vec<UiLine>, x: i32, y0: i32, lh: i32) -> (y_end: i32)
    requires
        lh > 0,
        y0 >= 0,
        y0 + lines@.len() * lh <= i32::MAX,
    ensures
        nodes_view(final(texts)@) == nodes_view(old(texts)@) + column(lines@, x as int, y0 as int, lh as int),
        y_end == y0 + lines@.len() * lh,
{
    let ghost start = nodes_view(texts@);
    let mut y = y0;
    let mut i: usize = 0;
    assert(column(lines@, x as int, y0 as int, lh as int).take(0) =~= Seq::<(int, int, (Seq<char>, (u8, u8, u8)))>::empty());
    assert(start + Seq::<(int, int, (Seq<char>, (u8, u8, u8)))>::empty() =~= start);
    while i < lines.len()
        invariant
            lh > 0,
            y0 >= 0,
            y0 + lines@.len() * lh <= i32::MAX,
            i <= lines@.len(),
            y == y0 + i * lh,
            nodes_view(texts@) == start + column(lines@, x as int, y0 as int, lh as int).take(i as int),
        decreases lines@.len() - i,
    {
        push_node(texts, x, y, &lines[i]);
        proof {
            assert(column(lines@, x as int, y0 as int, lh as int).take(i + 1) =~= column(
                lines@,
                x as int,
                y0 as int,
                lh as int,
            ).take(i as int).push((x as int, y as int, line_view(lines@[i as int]))));
            assert((i + 1) * lh <= lines@.len() * lh) by (nonlinear_arith)
                requires
                    i + 1 <= lines@.len(),
                    lh > 0,
            ;
            assert((i + 1) * lh == i * lh + lh) by (nonlinear_arith);
        }
        y = y + lh;
        i += 1;
    }
    assert(column(lines@, x as int, y0 as int, lh as int).take(i as int) =~= column(lines@, x as int, y0 as int, lh as int));
    y
}

/// Places the lines of `ui` on a 900 by 600 screen, for a font `font_h` high.
pub fn layout_scene(ui: &UiModel, font_h: i32) -> (r: Scene)
    requires
        font_h <= i32::MAX - 6,
        90 + (ui.left_bindings@.len() + ui.combos_lines@.len()) * line_height(font_h) <= i32::MAX,
        120 + ui.outs_lines@.len() * line_height(font_h) <= i32::MAX,
        244 + ui.recent_lines@.len() * line_height(font_h) <= i32::MAX,
    ensures
        r.bg == (18u8, 18u8, 18u8),
        nodes_view(r.texts@) == scene_layout(*ui, font_h),
{
    let left_x: i32 = 16;
    let right_x: i32 = 520;
    let h_total: i32 = 600;
    let line_h: i32 = (if font_h >= 16 {
        font_h
    } else {
        16
    }) + 6;
    let ghost lh = line_height(font_h);
    let nb = ui.left_bindings.len();
    let nc = ui.combos_lines.len();
    proof {
        assert((nb + nc) * lh == nb * lh + nc * lh) by (nonlinear_arith);
        assert(nb * lh >= 0 && nc * lh >= 0) by (nonlinear_arith)
            requires
                lh > 0,
        ;
    }
    let mut texts: Vec<TextNode> = Vec::new();
    push_node(&mut texts, left_x, 14, &ui.left_title);
    let y = push_column(&mut texts, &ui.left_bindings, left_x, 14 + 28, line_h);
    push_node(&mut texts, left_x, y + 20, &ui.combos_title);
    let _yc = push_column(&mut texts, &ui.combos_lines, left_x, y + 20 + 28, line_h);
    push_node(&mut texts, right_x, 14, &ui.right_title);
    push_node(&mut texts, right_x, 40, &ui.cur_state_line);
    push_node(&mut texts, right_x, 68, &ui.fail_line);
    push_node(&mut texts, right_x, 96, &ui.outs_title);
    let _y2 = push_column(&mut texts, &ui.outs_lines, right_x + 20, 120, line_h);
    push_node(&mut texts, right_x, 220, &ui.recent_title);
    let _y3 = push_column(&mut texts, &ui.recent_lines, right_x + 20, 244, line_h);
    push_node(&mut texts, right_x - 150, h_total - 28, &ui.footer);
    proof {
        assert(nodes_view(texts@) =~= scene_layout(*ui, font_h));
    }
    Scene { bg: (18, 18, 18), texts }
}

/// The key token of a key pressed with modifiers: `shift-`, `alt-` and `ctrl-`,
/// in that order, before the key's name.
pub open spec fn keytok_text(shift: bool, alt: bool, ctrl: bool, base: Seq<char>) -> Seq<char> {
    (if shift {
        "shift-"@
    } else {
        ""@
    }) + (if alt {
        "alt-"@
    } else {
        ""@
    }) + (if ctrl {
        "ctrl-"@
    } else {
        ""@
    }) + base
}

/// Builds the key token of a key pressed with modifiers.
pub fn keytok_from_parts(shift: bool, alt: bool, ctrl: bool, base: &str) -> (r: String)
    ensures
        r@ == keytok_text(shift, alt, ctrl, base@),
{
    let mut out = String::new();
    proof {
        reveal_strlit("");
        assert(out@ =~= ""@);
    }
    if shift {
        out.append("shift-");
    } else {
        assert(out@ + ""@ =~= out@);
    }
    let ghost o1 = out@;
    if alt {
        out.append("alt-");
    } else {
        assert(o1 + ""@ =~= o1);
    }
    let ghost o2 = out@;
    if ctrl {
        out.append("ctrl-");
    } else {
        assert(o2 + ""@ =~= o2);
    }
    out.append(base);
    out
}

/// The event of a key press: `ctrl-c` quits, any other token is passed on.
pub fn key_press_event(tok: String) -> (r: AppEvent)
    ensures
        tok@ == "ctrl-c"@ ==> r is Quit,
        tok@ != "ctrl-c"@ ==> (r matches AppEvent::KeyTok(t) && t@ == tok@),
{
    let quit = "ctrl-c".to_owned();
    if tok == quit {
        AppEvent::Quit
    } else {
        AppEvent::KeyTok(tok)
    }
}

} // verus!
