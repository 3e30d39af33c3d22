use vstd::prelude::*;

use crate::automaton::{valid_rules, RuleSpec};
use crate::text::{decimal, push_decimal};

verus! {

/// Unicode's White_Space property: the characters that `char::is_whitespace` accepts.
pub open spec fn white_space(c: char) -> bool {
    let u = c as u32;
    (0x09 <= u <= 0x0D) || u == 0x20 || u == 0x85 || u == 0xA0 || u == 0x1680 || (0x2000 <= u <= 0x200A)
        || u == 0x2028 || u == 0x2029 || u == 0x202F || u == 0x205F || u == 0x3000
}

fn is_white(c: char) -> (r: bool)
    ensures
        r == white_space(c),
{
    let u = c as u32;
    (0x09 <= u && u <= 0x0D) || u == 0x20 || u == 0x85 || u == 0xA0 || u == 0x1680 || (0x2000 <= u && u
        <= 0x200A) || u == 0x2028 || u == 0x2029 || u == 0x202F || u == 0x205F || u == 0x3000
}

pub open spec fn trim_front(s: Seq<char>) -> Seq<char>
    decreases s.len(),
{
    if s.len() > 0 && white_space(s[0]) {
        trim_front(s.drop_first())
    } else {
        s
    }
}

pub open spec fn trim_back(s: Seq<char>) -> Seq<char>
    decreases s.len(),
{
    if s.len() > 0 && white_space(s.last()) {
        trim_back(s.drop_last())
    } else {
        s
    }
}

/// `s` without its leading and trailing white space.
pub open spec fn trim(s: Seq<char>) -> Seq<char> {
    trim_back(trim_front(s))
}

/// The index of the first `c` in `s`, or its length if there is none.
pub open spec fn find_char(s: Seq<char>, c: char) -> nat
    decreases s.len(),
{
    if s.len() == 0 {
        0
    } else if s[0] == c {
        0
    } else {
        1 + find_char(s.drop_first(), c)
    }
}

/// The index of the first `->` in `s`, or its length if there is none.
pub open spec fn find_arrow(s: Seq<char>) -> nat
    decreases s.len(),
{
    if s.len() < 2 {
        s.len()
    } else if s[0] == '-' && s[1] == '>' {
        0
    } else {
        1 + find_arrow(s.drop_first())
    }
}

proof fn lemma_find_arrow(s: Seq<char>)
    ensures
        find_arrow(s) <= s.len(),
        find_arrow(s) < s.len() ==> find_arrow(s) + 2 <= s.len(),
    decreases s.len(),
{
    if s.len() >= 2 && !(s[0] == '-' && s[1] == '>') {
        lemma_find_arrow(s.drop_first());
    }
}

/// The non-empty trimmed pieces of `s` between commas.
pub open spec fn tokens_of(s: Seq<char>) -> Seq<Seq<char>>
    decreases s.len(),
{
    let i = find_char(s, ',');
    let t = trim(s.take(i as int));
    let rest = if i >= s.len() {
        Seq::empty()
    } else {
        tokens_of(s.skip(i + 1int))
    };
    if t.len() > 0 {
        seq![t] + rest
    } else {
        rest
    }
}

/// What is wrong with a rule line.
#[derive(Debug, Clone, Copy, PartialEq, Eq, Structural)]
pub enum LineError {
    EmptySequence,
    MissingArrow,
    EmptyMoveName,
}

/// `t` holds a white-space character.
pub open spec fn has_white(t: Seq<char>) -> bool {
    exists|i: int| 0 <= i < t.len() && white_space(#[trigger] t[i])
}

/// Some token of `toks` holds white space: two tokens with no comma between them.
pub open spec fn any_spaced(toks: Seq<Seq<char>>) -> bool {
    exists|i: int| 0 <= i < toks.len() && has_white(#[trigger] toks[i])
}

/// A line of rule source: nothing (blank or `#` comment), a rule, or an error.
/// A line without `->`, or with two tokens not separated by a comma, misses a
/// separator.
pub open spec fn parse_line(raw: Seq<char>) -> Result<Option<RuleSpec>, LineError> {
    let line = trim(raw);
    if line.len() == 0 || line[0] == '#' {
        Ok(None)
    } else {
        let k = find_arrow(line);
        if k >= line.len() {
            Err(LineError::MissingArrow)
        } else {
            let rhs = trim(line.skip(k + 2int));
            let toks = tokens_of(line.take(k as int));
            if rhs.len() == 0 {
                Err(LineError::EmptyMoveName)
            } else if any_spaced(toks) {
                Err(LineError::MissingArrow)
            } else if toks.len() == 0 {
                Err(LineError::EmptySequence)
            } else {
                Ok(Some((toks, rhs)))
            }
        }
    }
}

/// The rules of source `s` whose first line is numbered `line_no`, or the first
/// error with its line number.
pub open spec fn parse_from(s: Seq<char>, line_no: nat) -> Result<Seq<RuleSpec>, (LineError, nat)>
    decreases s.len(),
{
    let i = find_char(s, '\n');
    let rest = if i >= s.len() {
        Ok(Seq::empty())
    } else {
        parse_from(s.skip(i + 1int), line_no + 1)
    };
    match parse_line(s.take(i as int)) {
        Err(e) => Err((e, line_no)),
        Ok(None) => rest,
        Ok(Some(r)) => match rest {
            Ok(rs) => Ok(seq![r] + rs),
            Err(e) => Err(e),
        },
    }
}

/// The rules of a whole source text, lines numbered from 1.
pub open spec fn parse_source(s: Seq<char>) -> Result<Seq<RuleSpec>, (LineError, nat)> {
    parse_from(s, 1)
}

pub open spec fn add_token(acc: Seq<Seq<char>>, t: Seq<char>) -> Seq<Seq<char>> {
    if acc.contains(t) {
        acc
    } else {
        acc.push(t)
    }
}

pub open spec fn add_tokens(acc: Seq<Seq<char>>, toks: Seq<Seq<char>>) -> Seq<Seq<char>>
    decreases toks.len(),
{
    if toks.len() == 0 {
        acc
    } else {
        add_token(add_tokens(acc, toks.drop_last()), toks.last())
    }
}

/// The distinct tokens of the rules, in order of first occurrence.
pub open spec fn alphabet_of(rules: Seq<RuleSpec>) -> Seq<Seq<char>>
    decreases rules.len(),
{
    if rules.len() == 0 {
        Seq::empty()
    } else {
        add_tokens(alphabet_of(rules.drop_last()), rules.last().0)
    }
}

/// One canonical token of a rule: a trimmed, case-sensitive string.
#[derive(Debug, Clone, PartialEq, Eq, Hash)]
pub struct Token(String);

impl View for Token {
    type V = Seq<char>;

    closed spec fn view(&self) -> Seq<char> {
        self.0@
    }
}

impl Token {
    /// The token of `s`, trimmed of surrounding white space.
    pub fn new(s: &str) -> (r: Token)
        ensures
            r@ == trim(s@),
    {
        let chars = chars_of(s);
        let (a, b) = trim_range(&chars, 0, chars.len());
        proof {
            assert(chars@.subrange(0, chars@.len() as int) =~= s@);
        }
        Token(s.substring_char(a, b).to_owned())
    }

    pub fn as_str(&self) -> (r: &str)
        ensures
            r@ == self@,
    {
        self.0.as_str()
    }
}

/// A combo: an ordered sequence of tokens bound to an output label.
#[derive(Debug, Clone, PartialEq, Eq)]
pub struct Rule {
    pub sequence: Vec<Token>,
    pub move_name: String,
}

impl View for Rule {
    type V = (Seq<Seq<char>>, Seq<char>);

    open spec fn view(&self) -> (Seq<Seq<char>>, Seq<char>) {
        (self.sequence@.map_values(|t: Token| t@), self.move_name@)
    }
}

/// The abstract content of a rule list.
pub open spec fn rules_view(rs: Seq<Rule>) -> Seq<RuleSpec> {
    rs.map_values(|r: Rule| r@)
}

pub open spec fn tokens_view(ts: Seq<Token>) -> Seq<Seq<char>> {
    ts.map_values(|t: Token| t@)
}

/// A parsed rule source: its rules in order and its alphabet.
#[derive(Debug, Clone)]
pub struct Grammar {
    pub rules: Vec<Rule>,
    pub alphabet: Vec<Token>,
}

/// Why a rule source could not be read.
#[derive(Debug)]
pub enum ParseError {
    Io(std::io::Error),
    EmptySequence { line_no: usize },
    MissingArrow { line_no: usize },
    EmptyMoveName { line_no: usize },
}

/// `pe` is the error `e` at line `n`.
pub open spec fn is_line_error(pe: ParseError, e: LineError, n: nat) -> bool {
    match e {
        LineError::EmptySequence => pe matches ParseError::EmptySequence { line_no } && line_no == n,
        LineError::MissingArrow => pe matches ParseError::MissingArrow { line_no } && line_no == n,
        LineError::EmptyMoveName => pe matches ParseError::EmptyMoveName { line_no } && line_no == n,
    }
}

/// Declares `std::io::Error` so that a read failure can be carried in a `ParseError`.
#[verifier::external_type_specification]
#[verifier::external_body]
pub struct ExIoError(std::io::Error);

/// The characters of `s`.
pub(crate) fn chars_of(s: &str) -> (r: Vec<char>)
    ensures
        r@ == s@,
{
    let n = s.unicode_len();
    let mut out: Vec<char> = Vec::new();
    let mut i: usize = 0;
    while i < n
        invariant
            n == s@.len(),
            i <= n,
            out@ == s@.take(i as int),
        decreases n - i,
    {
        out.push(s.get_char(i));
        assert(s@.take(i + 1) =~= s@.take(i as int).push(s@[i as int]));
        i += 1;
    }
    assert(s@.take(n as int) =~= s@);
    out
}

/// The bounds of `chars[lo..hi]` trimmed of white space.
fn trim_range(chars: &Vec<char>, lo: usize, hi: usize) -> (r: (usize, usize))
    requires
        lo <= hi <= chars@.len(),
    ensures
        lo <= r.0 <= r.1 <= hi,
        chars@.subrange(r.0 as int, r.1 as int) == trim(chars@.subrange(lo as int, hi as int)),
{
    let mut a = lo;
    while a < hi && is_white(chars[a])
        invariant
            lo <= a <= hi <= chars@.len(),
            trim_front(chars@.subrange(lo as int, hi as int)) == trim_front(chars@.subrange(a as int, hi as int)),
        decreases hi - a,
    {
        assert(chars@.subrange(a as int, hi as int).drop_first() =~= chars@.subrange(a + 1, hi as int));
        a += 1;
    }
    let mut b = hi;
    while b > a && is_white(chars[b - 1])
        invariant
            lo <= a <= b <= hi <= chars@.len(),
            trim_back(chars@.subrange(a as int, hi as int)) == trim_back(chars@.subrange(a as int, b as int)),
        decreases b - a,
    {
        assert(chars@.subrange(a as int, b as int).drop_last() =~= chars@.subrange(a as int, b - 1));
        b -= 1;
    }
    (a, b)
}

/// The index of the first `c` in `chars[lo..hi]`, or `hi`.
pub(crate) fn find_char_in(chars: &Vec<char>, lo: usize, hi: usize, c: char) -> (k: usize)
    requires
        lo <= hi <= chars@.len(),
    ensures
        lo <= k <= hi,
        k == lo + find_char(chars@.subrange(lo as int, hi as int), c),
{
    let mut k = lo;
    while k < hi && chars[k] != c
        invariant
            lo <= k <= hi <= chars@.len(),
            find_char(chars@.subrange(lo as int, hi as int), c) == (k - lo) + find_char(
                chars@.subrange(k as int, hi as int),
                c,
            ),
        decreases hi - k,
    {
        assert(chars@.subrange(k as int, hi as int).drop_first() =~= chars@.subrange(k + 1, hi as int));
        k += 1;
    }
    k
}

/// The index of the first `->` in `chars[lo..hi]`, or `hi`.
fn find_arrow_in(chars: &Vec<char>, lo: usize, hi: usize) -> (k: usize)
    requires
        lo <= hi <= chars@.len(),
    ensures
        lo <= k <= hi,
        k == lo + find_arrow(chars@.subrange(lo as int, hi as int)),
{
    let mut k = lo;
    while k < hi && k + 1 < hi && !(chars[k] == '-' && chars[k + 1] == '>')
        invariant
            lo <= k <= hi <= chars@.len(),
            find_arrow(chars@.subrange(lo as int, hi as int)) == (k - lo) + find_arrow(
                chars@.subrange(k as int, hi as int),
            ),
        decreases hi - k,
    {
        assert(chars@.subrange(k as int, hi as int).drop_first() =~= chars@.subrange(k + 1, hi as int));
        k += 1;
    }
    if k >= hi || k + 1 >= hi {
        k = hi;
    }
    k
}

/// A parse result with `acc` put before the rules it holds.
pub open spec fn prepend_rules(
    acc: Seq<RuleSpec>,
    res: Result<Seq<RuleSpec>, (LineError, nat)>,
) -> Result<Seq<RuleSpec>, (LineError, nat)> {
    match res {
        Ok(rs) => Ok(acc + rs),
        Err(e) => Err(e),
    }
}

/// The tokens of the comma-separated list `s[lo..hi]`, where `chars` are the
/// characters of `s`.
fn tokens_in(s: &str, chars: &Vec<char>, lo: usize, hi: usize) -> (r: Vec<Token>)
    requires
        chars@ == s@,
        lo <= hi <= chars@.len(),
    ensures
        tokens_view(r@) == tokens_of(chars@.subrange(lo as int, hi as int)),
{
    let mut acc: Vec<Token> = Vec::new();
    let mut p = lo;
    loop
        invariant
            chars@ == s@,
            lo <= p <= hi <= chars@.len(),
            tokens_of(chars@.subrange(lo as int, hi as int)) == tokens_view(acc@) + tokens_of(
                chars@.subrange(p as int, hi as int),
            ),
        decreases hi - p,
    {
        let q = find_char_in(chars, p, hi, ',');
        let (a, b) = trim_range(chars, p, q);
        let ghost seg = chars@.subrange(p as int, hi as int);
        let ghost i = find_char(seg, ',');
        proof {
            assert(seg.take(i as int) =~= chars@.subrange(p as int, q as int));
            if q < hi {
                assert(seg.skip(i + 1int) =~= chars@.subrange(q + 1, hi as int));
            }
        }
        let ghost before = acc@;
        if a < b {
            let t = Token(s.substring_char(a, b).to_owned());
            acc.push(t);
            proof {
                assert(tokens_view(acc@) =~= tokens_view(before).push(chars@.subrange(a as int, b as int)));
            }
        }
        if q >= hi {
            proof {
                assert(tokens_of(seg) =~= tokens_view(acc@).subrange(before.len() as int, acc@.len() as int));
                assert(tokens_view(acc@) =~= tokens_view(before) + tokens_of(seg));
                assert(tokens_of(chars@.subrange(hi as int, hi as int)) =~= Seq::<Seq<char>>::empty()) by {
                    let e = chars@.subrange(hi as int, hi as int);
                    assert(trim(e.take(0)) =~= Seq::<char>::empty()) by {
                        assert(e.take(0) =~= Seq::<char>::empty());
                    }
                }
                assert(tokens_view(acc@) + Seq::<Seq<char>>::empty() =~= tokens_view(acc@));
            }
            return acc;
        }
        proof {
            assert(tokens_view(acc@) + tokens_of(chars@.subrange(q + 1, hi as int)) =~= tokens_view(before)
                + tokens_of(seg));
        }
        p = q + 1;
    }
}

/// The rule on line `chars[p..q]` of `s`, if any.
fn parse_line_at(s: &str, chars: &Vec<char>, p: usize, q: usize) -> (r: Result<Option<Rule>, LineError>)
    requires
        chars@ == s@,
        p <= q <= chars@.len(),
    ensures
        match parse_line(chars@.subrange(p as int, q as int)) {
            Ok(None) => r matches Ok(None),
            Ok(Some(rs)) => r matches Ok(Some(rule)) && rule@ == rs,
            Err(e) => r matches Err(e2) && e2 == e,
        },
{
    let (a, b) = trim_range(chars, p, q);
    let ghost line = chars@.subrange(a as int, b as int);
    if a == b || chars[a] == '#' {
        return Ok(None);
    }
    let k = find_arrow_in(chars, a, b);
    if k >= b {
        return Err(LineError::MissingArrow);
    }
    proof {
        lemma_find_arrow(line);
    }
    let (ra, rb) = trim_range(chars, k + 2, b);
    let toks = tokens_in(s, chars, a, k);
    proof {
        let kk = find_arrow(line);
        assert(line.skip(kk + 2int) =~= chars@.subrange(k + 2, b as int));
        assert(line.take(kk as int) =~= chars@.subrange(a as int, k as int));
    }
    if ra == rb {
        return Err(LineError::EmptyMoveName);
    }
    if any_token_has_white(&toks) {
        return Err(LineError::MissingArrow);
    }
    if toks.len() == 0 {
        return Err(LineError::EmptySequence);
    }
    let rule = Rule { sequence: toks, move_name: s.substring_char(ra, rb).to_owned() };
    proof {
        assert(rule@.0 =~= tokens_view(toks@));
    }
    Ok(Some(rule))
}

fn line_error(e: LineError, line_no: usize) -> (r: ParseError)
    ensures
        is_line_error(r, e, line_no as nat),
{
    match e {
        LineError::EmptySequence => ParseError::EmptySequence { line_no },
        LineError::MissingArrow => ParseError::MissingArrow { line_no },
        LineError::EmptyMoveName => ParseError::EmptyMoveName { line_no },
    }
}

fn token_position(ts: &Vec<Token>, t: &Token) -> (r: Option<usize>)
    ensures
        r matches Some(m) ==> m < ts@.len() && ts@[m as int]@ == t@,
        r is None ==> !tokens_view(ts@).contains(t@),
{
    let mut m: usize = 0;
    while m < ts.len()
        invariant
            m <= ts@.len(),
            forall|x: int| 0 <= x < m ==> (#[trigger] ts@[x])@ != t@,
        decreases ts@.len() - m,
    {
        if ts[m].0 == t.0 {
            return Some(m);
        }
        m += 1;
    }
    proof {
        if tokens_view(ts@).contains(t@) {
            let x = choose|x: int| 0 <= x < ts@.len() && tokens_view(ts@)[x] == t@;
            assert(ts@[x]@ == t@);
        }
    }
    None
}

/// The distinct tokens of `rules`, in order of first occurrence.
fn alphabet_from(rules: &Vec<Rule>) -> (r: Vec<Token>)
    ensures
        tokens_view(r@) == alphabet_of(rules_view(rules@)),
{
    let ghost rv = rules_view(rules@);
    let mut acc: Vec<Token> = Vec::new();
    let mut i: usize = 0;
    assert(rv.take(0) =~= Seq::<RuleSpec>::empty());
    while i < rules.len()
        invariant
            rv == rules_view(rules@),
            i <= rules@.len(),
            tokens_view(acc@) == alphabet_of(rv.take(i as int)),
        decreases rules@.len() - i,
    {
        let seq = &rules[i].sequence;
        let ghost w = rv[i as int].0;
        assert(w == tokens_view(seq@));
        let mut j: usize = 0;
        assert(w.take(0) =~= Seq::<Seq<char>>::empty());
        while j < seq.len()
            invariant
                rv == rules_view(rules@),
                i < rules@.len(),
                seq == &rules@[i as int].sequence,
                w == tokens_view(seq@),
                j <= seq@.len(),
                tokens_view(acc@) == add_tokens(alphabet_of(rv.take(i as int)), w.take(j as int)),
            decreases seq@.len() - j,
        {
            let t = &seq[j];
            let ghost before = acc@;
            proof {
                assert(w.take(j + 1).drop_last() =~= w.take(j as int));
            }
            match token_position(&acc, t) {
                Some(m) => {
                    proof {
                        assert(tokens_view(before)[m as int] == t@);
                    }
                },
                None => {
                    acc.push(Token(t.0.clone()));
                    proof {
                        assert(tokens_view(acc@) =~= tokens_view(before).push(t@));
                    }
                },
            }
            j += 1;
        }
        proof {
            assert(w.take(j as int) =~= w);
            assert(rv.take(i + 1).drop_last() =~= rv.take(i as int));
        }
        i += 1;
    }
    assert(rv.take(i as int) =~= rv);
    acc
}

/// Parses a rule source: one rule `token, token, ... -> label` per line, blank
/// lines and `#` comments skipped. The first malformed line gives the error; two
/// tokens with no comma between them are a missing separator.
pub fn parse_gmr(input: &str) -> (r: Result<Grammar, ParseError>)
    requires
        input@.len() < usize::MAX,
    ensures
        match parse_source(input@) {
            Ok(rules) => r matches Ok(g) && rules_view(g.rules@) == rules && tokens_view(g.alphabet@)
                == alphabet_of(rules),
            Err((e, n)) => r matches Err(pe) && is_line_error(pe, e, n),
        },
{
    let chars = chars_of(input);
    let n = chars.len();
    let mut rules: Vec<Rule> = Vec::new();
    let mut p: usize = 0;
    let mut line_no: usize = 1;
    assert(chars@.subrange(0, n as int) =~= input@);
    assert(rules_view(rules@) + Seq::<RuleSpec>::empty() =~= Seq::<RuleSpec>::empty());
    loop
        invariant_except_break
            parse_source(input@) == prepend_rules(rules_view(rules@), parse_from(chars@.subrange(p as int, n as int), line_no as nat)),
        invariant
            chars@ == input@,
            n == chars@.len(),
            n < usize::MAX,
            p <= n,
            1 <= line_no <= p + 1,
        ensures
            parse_source(input@) == Ok::<Seq<RuleSpec>, (LineError, nat)>(rules_view(rules@)),
        decreases n - p,
    {
        let q = find_char_in(&chars, p, n, '\n');
        let ghost seg = chars@.subrange(p as int, n as int);
        let ghost i = find_char(seg, '\n');
        proof {
            assert(seg.take(i as int) =~= chars@.subrange(p as int, q as int));
            if q < n {
                assert(seg.skip(i + 1int) =~= chars@.subrange(q + 1, n as int));
            }
        }
        let ghost before = rules@;
        let ghost rest = if q >= n {
            Ok(Seq::<RuleSpec>::empty())
        } else {
            parse_from(chars@.subrange(q + 1, n as int), (line_no + 1) as nat)
        };
        proof {
            assert(parse_from(seg, line_no as nat) == match parse_line(chars@.subrange(p as int, q as int)) {
                Err(e) => Err((e, line_no as nat)),
                Ok(None) => rest,
                Ok(Some(r)) => match rest {
                    Ok(rs) => Ok(seq![r] + rs),
                    Err(e) => Err(e),
                },
            });
        }
        match parse_line_at(input, &chars, p, q) {
            Err(e) => {
                proof {
                    assert(parse_source(input@) == Err::<Seq<RuleSpec>, (LineError, nat)>((e, line_no as nat)));
                }
                return Err(line_error(e, line_no));
            },
            Ok(Some(rule)) => {
                rules.push(rule);
                proof {
                    assert(rules_view(rules@) =~= rules_view(before).push(rule@));
                    match rest {
                        Ok(rs) => {
                            assert(rules_view(before) + (seq![rule@] + rs) =~= rules_view(rules@) + rs);
                        },
                        Err(_) => {},
                    }
                }
            },
            Ok(None) => {},
        }
        proof {
            assert(parse_source(input@) == prepend_rules(rules_view(rules@), rest));
        }
        if q >= n {
            proof {
                assert(rules_view(rules@) + Seq::<RuleSpec>::empty() =~= rules_view(rules@));
            }
            break;
        }
        p = q + 1;
        line_no += 1;
        proof {
            assert(rest == parse_from(chars@.subrange(p as int, n as int), line_no as nat));
        }
    }
    let alphabet = alphabet_from(&rules);
    Ok(Grammar { rules, alphabet })
}

/// The text of error `e` at line `n`.
pub open spec fn line_error_text(e: LineError, n: nat) -> Seq<char> {
    "line "@ + decimal(n) + match e {
        LineError::EmptySequence => ": empty sequence before '->'"@,
        LineError::MissingArrow => ": expected '->' in rule"@,
        LineError::EmptyMoveName => ": empty move name after '->'"@,
    }
}

impl ParseError {
    /// A one-line description of the error.
    pub fn message(&self) -> (r: String)
        ensures
            self matches ParseError::EmptySequence { line_no } ==> r@ == line_error_text(
                LineError::EmptySequence,
                line_no as nat,
            ),
            self matches ParseError::MissingArrow { line_no } ==> r@ == line_error_text(
                LineError::MissingArrow,
                line_no as nat,
            ),
            self matches ParseError::EmptyMoveName { line_no } ==> r@ == line_error_text(
                LineError::EmptyMoveName,
                line_no as nat,
            ),
            self is Io ==> r@.take(11) == "I/O error: "@,
    {
        match self {
            ParseError::Io(e) => {
                let mut out = "I/O error: ".to_owned();
                let t = e.to_string();
                out.append(t.as_str());
                proof {
                    reveal_strlit("I/O error: ");
                    assert(out@.take(11) =~= "I/O error: "@);
                }
                out
            },
            ParseError::EmptySequence { line_no } => line_message(*line_no, ": empty sequence before '->'"),
            ParseError::MissingArrow { line_no } => line_message(*line_no, ": expected '->' in rule"),
            ParseError::EmptyMoveName { line_no } => line_message(*line_no, ": empty move name after '->'"),
        }
    }
}

fn line_message(line_no: usize, what: &str) -> (r: String)
    ensures
        r@ == "line "@ + decimal(line_no as nat) + what@,
{
    let mut out = "line ".to_owned();
    push_decimal(&mut out, line_no as u128);
    out.append(what);
    out
}

/// Every rule that parsing yields has at least one token.
pub proof fn lemma_parse_valid(s: Seq<char>, line_no: nat)
    ensures
        parse_from(s, line_no) matches Ok(rules) ==> valid_rules(rules),
    decreases s.len(),
{
    let i = find_char(s, '\n');
    if i < s.len() {
        lemma_parse_valid(s.skip(i + 1int), line_no + 1);
    }
    match parse_from(s, line_no) {
        Ok(rules) => {
            match parse_line(s.take(i as int)) {
                Ok(Some(r)) => {
                    let rest = if i >= s.len() {
                        Ok(Seq::<RuleSpec>::empty())
                    } else {
                        parse_from(s.skip(i + 1int), line_no + 1)
                    };
                    if let Ok(rs) = rest {
                        assert(rules == seq![r] + rs);
                        assert forall|k: int| 0 <= k < rules.len() implies (#[trigger] rules[k]).0.len() > 0 by {
                            if k > 0 {
                                assert(rules[k] == rs[k - 1]);
                            }
                        }
                    }
                },
                _ => {},
            }
        },
        Err(_) => {},
    }
}

/// A rule that binds a key: one token, and a label that is itself a token of the grammar.
pub open spec fn is_binding_rule(r: RuleSpec, alphabet: Seq<Seq<char>>) -> bool {
    r.0.len() == 1 && alphabet.contains(r.1)
}

/// The rules that are combos, in order.
pub open spec fn combos_of(rules: Seq<RuleSpec>, alphabet: Seq<Seq<char>>) -> Seq<RuleSpec>
    decreases rules.len(),
{
    if rules.len() == 0 {
        Seq::empty()
    } else if is_binding_rule(rules.last(), alphabet) {
        combos_of(rules.drop_last(), alphabet)
    } else {
        combos_of(rules.drop_last(), alphabet).push(rules.last())
    }
}

/// The key bindings (key token, internal token) that the rules give, in order.
pub open spec fn bindings_of(rules: Seq<RuleSpec>, alphabet: Seq<Seq<char>>) -> Seq<(Seq<char>, Seq<char>)>
    decreases rules.len(),
{
    if rules.len() == 0 {
        Seq::empty()
    } else if is_binding_rule(rules.last(), alphabet) {
        bindings_of(rules.drop_last(), alphabet).push((rules.last().0[0], rules.last().1))
    } else {
        bindings_of(rules.drop_last(), alphabet)
    }
}

/// The combos of valid rules are valid.
pub proof fn lemma_combos_valid(rules: Seq<RuleSpec>, alphabet: Seq<Seq<char>>)
    requires
        valid_rules(rules),
    ensures
        valid_rules(combos_of(rules, alphabet)),
    decreases rules.len(),
{
    if rules.len() > 0 {
        assert(valid_rules(rules.drop_last())) by {
            assert forall|k: int| 0 <= k < rules.len() - 1 implies (#[trigger] rules.drop_last()[k]).0.len() > 0 by {
                assert(rules.drop_last()[k] == rules[k]);
            }
        }
        lemma_combos_valid(rules.drop_last(), alphabet);
        assert(rules.last() == rules[rules.len() - 1]);
    }
}

/// A key binding: a physical key token and the internal token it stands for.
#[derive(Debug, Clone)]
pub struct Binding {
    pub key: String,
    pub internal: String,
}

/// A grammar split into combos and key bindings.
#[derive(Debug, Clone)]
pub struct Compiled {
    pub combos: Vec<Rule>,
    pub bindings: Vec<Binding>,
}

pub open spec fn bindings_view(bs: Seq<Binding>) -> Seq<(Seq<char>, Seq<char>)> {
    bs.map_values(|b: Binding| (b.key@, b.internal@))
}

fn copy_rule(r: &Rule) -> (c: Rule)
    ensures
        c@ == r@,
{
    let mut toks: Vec<Token> = Vec::new();
    let mut j: usize = 0;
    while j < r.sequence.len()
        invariant
            j <= r.sequence@.len(),
            tokens_view(toks@) == tokens_view(r.sequence@).take(j as int),
        decreases r.sequence@.len() - j,
    {
        let ghost before = toks@;
        toks.push(Token(r.sequence[j].0.clone()));
        assert(tokens_view(toks@) =~= tokens_view(before).push(r.sequence@[j as int]@));
        assert(tokens_view(r.sequence@).take(j + 1) =~= tokens_view(r.sequence@).take(j as int).push(
            r.sequence@[j as int]@,
        ));
        j += 1;
    }
    assert(tokens_view(r.sequence@).take(j as int) =~= tokens_view(r.sequence@));
    let c = Rule { sequence: toks, move_name: r.move_name.clone() };
    assert(c@.0 =~= r@.0);
    c
}

/// Splits a grammar into combos and key bindings: a one-token rule whose label is
/// a token of the grammar binds that key to that token; every other rule is a combo.
pub fn classify(g: &Grammar) -> (r: Compiled)
    ensures
        rules_view(r.combos@) == combos_of(rules_view(g.rules@), tokens_view(g.alphabet@)),
        bindings_view(r.bindings@) == bindings_of(rules_view(g.rules@), tokens_view(g.alphabet@)),
{
    let ghost rv = rules_view(g.rules@);
    let ghost alpha = tokens_view(g.alphabet@);
    let mut combos: Vec<Rule> = Vec::new();
    let mut bindings: Vec<Binding> = Vec::new();
    let mut i: usize = 0;
    assert(rv.take(0) =~= Seq::<RuleSpec>::empty());
    while i < g.rules.len()
        invariant
            rv == rules_view(g.rules@),
            alpha == tokens_view(g.alphabet@),
            i <= g.rules@.len(),
            rules_view(combos@) == combos_of(rv.take(i as int), alpha),
            bindings_view(bindings@) == bindings_of(rv.take(i as int), alpha),
        decreases g.rules@.len() - i,
    {
        let rule = &g.rules[i];
        proof {
            assert(rv.take(i + 1).drop_last() =~= rv.take(i as int));
            assert(rv.take(i + 1).last() == rule@);
        }
        let label = Token(rule.move_name.clone());
        let pos = token_position(&g.alphabet, &label);
        let is_binding = rule.sequence.len() == 1 && pos.is_some();
        proof {
            match pos {
                Some(m) => {
                    assert(alpha[m as int] == rule@.1);
                    assert(alpha.contains(rule@.1));
                },
                None => {},
            }
            assert(rule@.0.len() == rule.sequence@.len());
            assert(is_binding == is_binding_rule(rule@, alpha));
        }
        let ghost cb = combos@;
        let ghost bb = bindings@;
        if is_binding {
            bindings.push(Binding { key: rule.sequence[0].0.clone(), internal: rule.move_name.clone() });
            assert(bindings_view(bindings@) =~= bindings_view(bb).push((rule@.0[0], rule@.1)));
        } else {
            combos.push(copy_rule(rule));
            assert(rules_view(combos@) =~= rules_view(cb).push(rule@));
        }
        i += 1;
    }
    assert(rv.take(i as int) =~= rv);
    Compiled { combos, bindings }
}

fn token_has_white(t: &Token) -> (r: bool)
    ensures
        r == has_white(t@),
{
    let chars = chars_of(t.as_str());
    let mut i: usize = 0;
    while i < chars.len()
        invariant
            chars@ == t@,
            i <= chars@.len(),
            forall|k: int| 0 <= k < i ==> !white_space(#[trigger] chars@[k]),
        decreases chars@.len() - i,
    {
        if is_white(chars[i]) {
            return true;
        }
        i += 1;
    }
    false
}

fn any_token_has_white(ts: &Vec<Token>) -> (r: bool)
    ensures
        r == any_spaced(tokens_view(ts@)),
{
    let mut i: usize = 0;
    while i < ts.len()
        invariant
            i <= ts@.len(),
            forall|k: int| 0 <= k < i ==> !has_white(#[trigger] tokens_view(ts@)[k]),
        decreases ts@.len() - i,
    {
        if token_has_white(&ts[i]) {
            assert(has_white(tokens_view(ts@)[i as int]));
            return true;
        }
        i += 1;
    }
    false
}

} // verus!
