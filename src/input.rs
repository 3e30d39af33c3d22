use vstd::prelude::*;

use crate::parse::{chars_of, find_char, find_char_in};

verus! {

/// Relies on `String::push`: appends one character.
#[verifier::external_body]
fn push_char(s: &mut String, c: char)
    ensures
        final(s)@ == old(s)@.push(c),
{
    s.push(c)
}

/// The character of an ASCII byte.
pub open spec fn byte_char(b: u8) -> char {
    b as char
}

/// The ASCII lower case of a byte.
pub open spec fn ascii_lower(b: u8) -> u8 {
    if 65 <= b <= 90 {
        (b + 32) as u8
    } else {
        b
    }
}

/// The modifier prefix of a CSI modifier parameter.
pub open spec fn mod_prefix_spec(n: u8) -> Seq<char> {
    if n == 2 {
        "shift-"@
    } else if n == 3 {
        "alt-"@
    } else if n == 4 {
        "shift-alt-"@
    } else if n == 5 {
        "ctrl-"@
    } else if n == 6 {
        "shift-ctrl-"@
    } else if n == 7 {
        "alt-ctrl-"@
    } else if n == 8 {
        "shift-alt-ctrl-"@
    } else {
        ""@
    }
}

fn mod_prefix(n: u8) -> (r: &'static str)
    ensures
        r@ == mod_prefix_spec(n),
{
    if n == 2 {
        "shift-"
    } else if n == 3 {
        "alt-"
    } else if n == 4 {
        "shift-alt-"
    } else if n == 5 {
        "ctrl-"
    } else if n == 6 {
        "shift-ctrl-"
    } else if n == 7 {
        "alt-ctrl-"
    } else if n == 8 {
        "shift-alt-ctrl-"
    } else {
        ""
    }
}

/// A control byte 1..=26 names `ctrl-a` .. `ctrl-z`.
pub open spec fn ctrl_combo_spec(b: u8) -> Option<Seq<char>> {
    if 1 <= b <= 26 {
        Some("ctrl-"@.push(byte_char((b - 1 + 97) as u8)))
    } else {
        None
    }
}

fn ctrl_combo(b: u8) -> (r: Option<String>)
    ensures
        match ctrl_combo_spec(b) {
            Some(t) => r matches Some(s) && s@ == t,
            None => r is None,
        },
{
    if 1 <= b && b <= 26 {
        let mut s = "ctrl-".to_owned();
        push_char(&mut s, ((b - 1) + 97) as char);
        Some(s)
    } else {
        None
    }
}

/// The value of a string of ASCII digits.
pub open spec fn digits_value(d: Seq<char>) -> nat
    decreases d.len(),
{
    if d.len() == 0 {
        0
    } else {
        digits_value(d.drop_last()) * 10 + ((d.last() as u32) - 48) as nat
    }
}

pub open spec fn all_digits(d: Seq<char>) -> bool {
    forall|i: int| 0 <= i < d.len() ==> '0' <= #[trigger] d[i] <= '9'
}

/// How `str::parse::<u8>` reads `s`: an optional `+`, then at least one ASCII digit,
/// with a value that fits in a byte.
pub open spec fn parse_u8_spec(s: Seq<char>) -> Option<u8> {
    let d = if s.len() > 0 && s[0] == '+' {
        s.drop_first()
    } else {
        s
    };
    if d.len() > 0 && all_digits(d) && digits_value(d) <= 255 {
        Some(digits_value(d) as u8)
    } else {
        None
    }
}

/// The modifier parameter of CSI parameters `p`: the second `;`-separated field
/// read as a byte, or 0.
pub open spec fn csi_mod_spec(p: Seq<char>) -> u8 {
    let i = find_char(p, ';');
    if i >= p.len() {
        0
    } else {
        let rest = p.skip(i + 1int);
        match parse_u8_spec(rest.take(find_char(rest, ';') as int)) {
            Some(v) => v,
            None => 0,
        }
    }
}

proof fn lemma_digits_value_push(d: Seq<char>, c: char)
    ensures
        digits_value(d.push(c)) == digits_value(d) * 10 + ((c as u32) - 48) as nat,
{
    assert(d.push(c).drop_last() =~= d);
}

/// Reads `chars[lo..hi]` as `str::parse::<u8>` would.
fn parse_u8_range(chars: &Vec<char>, lo: usize, hi: usize) -> (r: Option<u8>)
    requires
        lo <= hi <= chars@.len(),
    ensures
        r == parse_u8_spec(chars@.subrange(lo as int, hi as int)),
{
    let ghost s = chars@.subrange(lo as int, hi as int);
    let mut a = lo;
    if a < hi && chars[a] == '+' {
        a += 1;
    }
    let ghost d = chars@.subrange(a as int, hi as int);
    proof {
        if s.len() > 0 && s[0] == '+' {
            assert(d =~= s.drop_first());
        } else {
            assert(d =~= s);
        }
    }
    if a == hi {
        return None;
    }
    let mut v: u32 = 0;
    let mut k = a;
    while k < hi
        invariant
            a <= k <= hi <= chars@.len(),
            a < hi,
            d == chars@.subrange(a as int, hi as int),
            parse_u8_spec(chars@.subrange(lo as int, hi as int)) == (if all_digits(d) && digits_value(d) <= 255 {
                Some(digits_value(d) as u8)
            } else {
                None
            }),
            all_digits(chars@.subrange(a as int, k as int)),
            v as nat == digits_value(chars@.subrange(a as int, k as int)),
            v <= 255,
        decreases hi - k,
    {
        let c = chars[k];
        if !('0' <= c && c <= '9') {
            proof {
                assert(d[k - a] == c);
            }
            return None;
        }
        proof {
            assert(chars@.subrange(a as int, k + 1) =~= chars@.subrange(a as int, k as int).push(c));
            lemma_digits_value_push(chars@.subrange(a as int, k as int), c);
        }
        let nv = v * 10 + (c as u32 - 48);
        if nv > 255 {
            proof {
                if all_digits(d) {
                    assert(d.take(k + 1 - a) =~= chars@.subrange(a as int, k + 1));
                    lemma_digits_grow(d, (k + 1 - a) as int);
                }
            }
            return None;
        }
        v = nv;
        k += 1;
    }
    assert(chars@.subrange(a as int, k as int) =~= d);
    Some(v as u8)
}

/// Digits never lower the value: the value of a digit string is at least that of
/// any of its prefixes.
proof fn lemma_digits_grow(d: Seq<char>, k: int)
    requires
        0 <= k <= d.len(),
        all_digits(d),
    ensures
        digits_value(d) >= digits_value(d.take(k)),
    decreases d.len() - k,
{
    if k < d.len() {
        lemma_digits_grow(d, k + 1);
        assert(d.take(k + 1).drop_last() =~= d.take(k));
        assert('0' <= d[k] <= '9');
        let x = digits_value(d.take(k));
        let y = ((d[k] as u32) - 48) as nat;
        assert(digits_value(d.take(k + 1)) == x * 10 + y);
        assert(x * 10 + y >= x) by (nonlinear_arith);
    } else {
        assert(d.take(k) =~= d);
    }
}

fn parse_csi_mod(params_ascii: &str) -> (r: u8)
    ensures
        r == csi_mod_spec(params_ascii@),
{
    let chars = chars_of(params_ascii);
    let n = chars.len();
    let i = find_char_in(&chars, 0, n, ';');
    proof {
        assert(chars@.subrange(0, n as int) =~= chars@);
    }
    if i >= n {
        return 0;
    }
    let j = find_char_in(&chars, i + 1, n, ';');
    proof {
        let rest = chars@.skip(i + 1int);
        assert(rest =~= chars@.subrange(i + 1, n as int));
        assert(rest.take(find_char(rest, ';') as int) =~= chars@.subrange(i + 1, j as int));
    }
    match parse_u8_range(&chars, i + 1, j) {
        Some(v) => v,
        None => 0,
    }
}

pub open spec fn is_final_byte(b: u8) -> bool {
    (65 <= b <= 90) || b == 126 || b == 64
}

/// The index, in `body`, of the CSI final byte among its first `max` bytes, if any.
pub open spec fn csi_final_index(body: Seq<u8>, max: nat) -> Option<nat>
    decreases max,
{
    if max == 0 || body.len() == 0 {
        None
    } else if is_final_byte(body[0]) {
        Some(0)
    } else {
        match csi_final_index(body.drop_first(), (max - 1) as nat) {
            Some(k) => Some(k + 1),
            None => None,
        }
    }
}

pub open spec fn bytes_chars(b: Seq<u8>) -> Seq<char> {
    b.map_values(|x: u8| byte_char(x))
}

/// The key token of an escape sequence, from the bytes `tail` that followed ESC
/// before the tail timeout ran out.
pub open spec fn escape_token(tail: Seq<u8>) -> Seq<char> {
    if tail.len() == 0 {
        "esc"@
    } else if tail[0] == 91 {
        let body = tail.drop_first();
        match csi_final_index(body, 6) {
            None => "esc"@,
            Some(j) => {
                let params = bytes_chars(body.take(j as int));
                let mp = mod_prefix_spec(csi_mod_spec(params));
                let fin = body[j as int];
                if fin == 65 {
                    mp + "up"@
                } else if fin == 66 {
                    mp + "down"@
                } else if fin == 67 {
                    mp + "right"@
                } else if fin == 68 {
                    mp + "left"@
                } else if fin == 126 && params.take(find_char(params, ';') as int) == "3"@ {
                    mp + "delete"@
                } else {
                    "esc"@
                }
            },
        }
    } else if 32 <= tail[0] <= 126 {
        "alt-"@.push(byte_char(ascii_lower(tail[0])))
    } else {
        "esc"@
    }
}

/// Whether the bytes after ESC already decide the token: reading stops there.
pub open spec fn escape_complete(tail: Seq<u8>) -> bool {
    tail.len() >= 1 && (tail[0] != 91 || tail.len() >= 7 || (tail.len() >= 2 && is_final_byte(tail.last())))
}

/// Whether the reader of an escape sequence has all the bytes it needs.
pub fn escape_tail_complete(tail: &[u8]) -> (r: bool)
    ensures
        r == escape_complete(tail@),
{
    let n = tail.len();
    n >= 1 && (tail[0] != 91 || n >= 7 || (n >= 2 && is_final(tail[n - 1])))
}

fn is_final(b: u8) -> (r: bool)
    ensures
        r == is_final_byte(b),
{
    (65 <= b && b <= 90) || b == 126 || b == 64
}

pub open spec fn shift_index(o: Option<nat>, d: nat) -> Option<nat> {
    match o {
        Some(j) => Some(j + d),
        None => None,
    }
}

/// Reads CSI parameter bytes from `bytes[start..]` up to a final byte, among at
/// most `max_steps` bytes: the parameters as text and the final byte.
fn read_csi_tail(bytes: &[u8], start: usize, max_steps: usize) -> (r: Option<(String, u8)>)
    requires
        start <= bytes@.len(),
    ensures
        match csi_final_index(bytes@.skip(start as int), max_steps as nat) {
            None => r is None,
            Some(j) => r matches Some((p, fin)) && p@ == bytes_chars(bytes@.skip(start as int).take(j as int))
                && fin == bytes@.skip(start as int)[j as int],
        },
{
    let mut acc = String::new();
    let mut k = start;
    proof {
        assert(acc@ =~= bytes_chars(bytes@.subrange(start as int, k as int)));
    }
    while k < bytes.len() && k - start < max_steps
        invariant
            start <= k <= bytes@.len(),
            k - start <= max_steps,
            acc@ == bytes_chars(bytes@.subrange(start as int, k as int)),
            csi_final_index(bytes@.skip(start as int), max_steps as nat) == shift_index(
                csi_final_index(bytes@.skip(k as int), (max_steps - (k - start)) as nat),
                (k - start) as nat,
            ),
            forall|i: int| start <= i < k ==> !is_final_byte(#[trigger] bytes@[i]),
        decreases bytes@.len() - k,
    {
        let b = bytes[k];
        proof {
            assert(bytes@.skip(k as int)[0] == b);
            assert(bytes@.skip(k as int).drop_first() =~= bytes@.skip(k + 1));
        }
        if is_final(b) {
            proof {
                assert(bytes@.skip(start as int).take((k - start) as int) =~= bytes@.subrange(start as int, k as int));
                assert(bytes@.skip(start as int)[(k - start) as int] == b);
            }
            return Some((acc, b));
        }
        push_char(&mut acc, b as char);
        proof {
            assert(bytes_chars(bytes@.subrange(start as int, k + 1)) =~= bytes_chars(
                bytes@.subrange(start as int, k as int),
            ).push(byte_char(b)));
        }
        k += 1;
    }
    None
}

/// Decodes the key token of an escape sequence from the bytes `tail` that came
/// after ESC (an empty tail: ESC alone).
pub fn decode_escape_sequence_with(tail: &[u8]) -> (r: String)
    ensures
        r@ == escape_token(tail@),
{
    if tail.len() == 0 {
        return "esc".to_owned();
    }
    let b = tail[0];
    if b == 91 {
        proof {
            assert(tail@.skip(1) =~= tail@.drop_first());
        }
        match read_csi_tail(tail, 1, 6) {
            None => "esc".to_owned(),
            Some((params, fin)) => {
                let m = parse_csi_mod(params.as_str());
                let mut out = mod_prefix(m).to_owned();
                if fin == 65 {
                    out.append("up");
                    out
                } else if fin == 66 {
                    out.append("down");
                    out
                } else if fin == 67 {
                    out.append("right");
                    out
                } else if fin == 68 {
                    out.append("left");
                    out
                } else if fin == 126 && first_field_is_three(params.as_str()) {
                    out.append("delete");
                    out
                } else {
                    "esc".to_owned()
                }
            },
        }
    } else if 32 <= b && b <= 126 {
        let mut out = "alt-".to_owned();
        push_char(&mut out, lower_byte(b) as char);
        out
    } else {
        "esc".to_owned()
    }
}

fn lower_byte(b: u8) -> (r: u8)
    ensures
        r == ascii_lower(b),
{
    if 65 <= b && b <= 90 {
        b + 32
    } else {
        b
    }
}

/// Whether the first `;`-separated field of `p` is `3`.
fn first_field_is_three(p: &str) -> (r: bool)
    ensures
        r == (p@.take(find_char(p@, ';') as int) == "3"@),
{
    proof {
        reveal_strlit("3");
    }
    let chars = chars_of(p);
    let n = chars.len();
    let i = find_char_in(&chars, 0, n, ';');
    proof {
        assert(chars@.subrange(0, n as int) =~= p@);
        assert(p@.take(i as int) =~= chars@.subrange(0, i as int));
        if i == 1 && chars@[0] == '3' {
            assert(p@.take(i as int) =~= "3"@);
        }
        if p@.take(i as int) == "3"@ {
            assert(p@.take(i as int).len() == 1);
            assert(p@.take(i as int)[0] == '3');
        }
    }
    i == 1 && chars[0] == '3'
}

/// The key token of a first byte and, after ESC, the bytes of its tail.
pub open spec fn key_token(first: u8, tail: Seq<u8>) -> Option<Seq<char>> {
    match ctrl_combo_spec(first) {
        Some(t) => Some(t),
        None => if first == 32 {
            Some("space"@)
        } else if first == 13 || first == 10 {
            Some("enter"@)
        } else if first == 127 || first == 8 {
            Some("backspace"@)
        } else if first == 27 {
            Some(escape_token(tail))
        } else if 32 <= first <= 126 {
            if 65 <= first <= 90 {
                Some("shift-"@.push(byte_char(ascii_lower(first))))
            } else {
                Some(seq![byte_char(first)])
            }
        } else {
            None
        },
    }
}

/// Decodes one key token from its first byte and, for ESC, the bytes that followed
/// it within the tail timeout. Bytes that name no key give nothing.
pub fn decode_one_token_with(first: u8, tail: &[u8]) -> (r: Option<String>)
    ensures
        match key_token(first, tail@) {
            Some(t) => r matches Some(s) && s@ == t,
            None => r is None,
        },
{
    if let Some(tok) = ctrl_combo(first) {
        return Some(tok);
    }
    if first == 32 {
        return Some("space".to_owned());
    }
    if first == 13 || first == 10 {
        return Some("enter".to_owned());
    }
    if first == 127 || first == 8 {
        return Some("backspace".to_owned());
    }
    if first == 27 {
        return Some(decode_escape_sequence_with(tail));
    }
    if 32 <= first && first <= 126 {
        if 65 <= first && first <= 90 {
            let mut out = "shift-".to_owned();
            push_char(&mut out, lower_byte(first) as char);
            return Some(out);
        } else {
            let mut out = String::new();
            push_char(&mut out, first as char);
            assert(out@ =~= seq![byte_char(first)]);
            return Some(out);
        }
    }
    None
}

} // verus!
