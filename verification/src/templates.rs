//! Template expansion for read SQL.
//!
//! Supported tokens (used in a job's `source.where`, `source.columns` and `source.select`):
//!
//! * `${state.<key>}` - the stored high-water mark for `key`, rendered as a SQL
//!   literal (missing values are handled by the caller's resolver).
//! * `${env.<NAME>}`  - environment variable.
//! * `${sys.now('FORMAT') ±N<unit>}` - current local time, optional offset
//!   where `<unit>` is one of `S` (seconds), `M` (minutes), `H` (hours) or
//!   `D` (days). Examples: `${sys.now('%Y-%m-%d %H:%M:%S')}`,
//!   `${sys.now('%Y-%m-%d') -1D}`.
//!
//! Unknown tokens are left verbatim so a mistake is visible in the query.

use vstd::prelude::*;
use vstd::string::*;

use crate::clock;
use crate::clock::{moment_text, Moment};
use crate::error::{AppError, AppErrorV, AppResult};
use crate::model::Value;
use crate::reading;
use crate::strmap;
use crate::strmap::StrMap;
use crate::text;
use crate::text::{
    cat3, cat5, char_is_digit, chars_of, copy, parse_i64, position, quote, same, string_of,
    trimmed, trimmed_end_any, without_prefix,
};
use crate::tokens;
use crate::tokens::{split_tokens, Piece, PieceV};
use crate::views;

verus! {

/// Render a stored state value as a SQL literal for interpolation.
pub fn state_to_literal(v: &Value) -> (out: String)
    ensures
        out@ == v@.literal(),
{
    match v.sql_literal() {
        Some(s) => s,
        None => copy(""),
    }
}

// ---------------------------------------------------------------------------
// Offsets
// ---------------------------------------------------------------------------

/// The number of digits that a text starts with.
pub open spec fn digits_len(s: Seq<char>) -> int
    decreases s.len(),
{
    if s.len() == 0 || !text::is_digit(s[0]) {
        0
    } else {
        1 + digits_len(s.skip(1))
    }
}

/// What follows the sign of an offset, if it has one.
pub open spec fn unsigned(s: Seq<char>) -> Seq<char> {
    if s.len() > 0 && (s[0] == '+' || s[0] == '-') {
        s.skip(1)
    } else {
        s
    }
}

pub open spec fn is_unit(c: char) -> bool {
    c == 'S' || c == 'M' || c == 'H' || c == 'D'
}

/// An offset like `-30S`, `+10M`, `-1H`, `2D`: sign, number and unit. What
/// follows the unit does not count.
pub open spec fn offset(s: Seq<char>) -> Result<(char, i64, char), AppErrorV> {
    let t = unsigned(s);
    let n = digits_len(t);
    if n == 0 {
        Err(AppErrorV::Template("bad offset: '"@ + s + "'"@))
    } else {
        match text::read_int(t.take(n)) {
            Err(_) => Err(AppErrorV::Template("bad offset number: '"@ + s + "'"@)),
            Ok(num) => if n >= t.len() {
                Err(AppErrorV::Template("bad offset unit: '"@ + s + "'"@))
            } else if !is_unit(t[n]) {
                Err(AppErrorV::Template("bad offset unit '"@ + seq![t[n]] + "' (expected S/M/H/D): '"@ + s + "'"@))
            } else {
                Ok(
                    (
                        if s[0] == '-' {
                            '-'
                        } else {
                            '+'
                        },
                        num as i64,
                        t[n],
                    ),
                )
            },
        }
    }
}

fn digits_end(v: &Vec<char>, from: usize) -> (out: usize)
    requires
        from <= v@.len(),
    ensures
        from <= out <= v@.len(),
        out == from + digits_len(v@.skip(from as int)),
{
    let mut i: usize = from;
    while i < v.len() && char_is_digit(v[i])
        invariant
            from <= i <= v@.len(),
            from + digits_len(v@.skip(from as int)) == i + digits_len(v@.skip(i as int)),
        decreases v.len() - i,
    {
        assert(v@.skip(i as int)[0] == v@[i as int]);
        assert(v@.skip(i as int).skip(1) =~= v@.skip(i + 1));
        i += 1;
    }
    assert(i < v@.len() ==> v@.skip(i as int)[0] == v@[i as int]);
    i
}

pub fn char_text(c: char) -> (out: String)
    ensures
        out@ == seq![c],
{
    let mut s = String::new();
    s.push(c);
    assert(s@ =~= seq![c]);
    s
}

/// Parse an offset like `-30S`, `+10M`, `-1H`, `2D`.
pub fn parse_offset(s: &str) -> (out: AppResult<(char, i64, char)>)
    ensures
        (match out {
            Ok(x) => Ok(x),
            Err(e) => Err(e@),
        }) == offset(s@),
{
    let v = chars_of(s);
    let signed = v.len() > 0 && (v[0] == '+' || v[0] == '-');
    let from: usize = if signed {
        1
    } else {
        0
    };
    let ghost t = unsigned(s@);
    assert(v@.skip(from as int) =~= t);
    let end = digits_end(&v, from);
    if end == from {
        return Err(AppError::Template(cat3("bad offset: '", s, "'")));
    }
    let digits = string_of(&v, from, end);
    assert(digits@ =~= t.take(end - from));
    match parse_i64(digits.as_str()) {
        Err(_) => Err(AppError::Template(cat3("bad offset number: '", s, "'"))),
        Ok(num) => if end >= v.len() {
            Err(AppError::Template(cat3("bad offset unit: '", s, "'")))
        } else {
            let unit = v[end];
            assert(unit == t[end - from]);
            if unit == 'S' || unit == 'M' || unit == 'H' || unit == 'D' {
                let sign = if v[0] == '-' {
                    '-'
                } else {
                    '+'
                };
                Ok((sign, num, unit))
            } else {
                let u = char_text(unit);
                Err(AppError::Template(cat5("bad offset unit '", u.as_str(), "' (expected S/M/H/D): '", s, "'")))
            }
        },
    }
}

/// The seconds of a unit.
pub open spec fn unit_secs(c: char) -> int {
    if c == 'S' {
        1
    } else if c == 'M' {
        60
    } else if c == 'H' {
        3600
    } else {
        86400
    }
}

/// The seconds of an offset; nothing where they do not fit.
pub open spec fn offset_secs(sign: char, num: i64, unit: char) -> Option<i64> {
    let n = num * unit_secs(unit);
    if n < i64::MIN || n > i64::MAX {
        None
    } else if sign == '+' {
        Some(n as i64)
    } else {
        Some((-n) as i64)
    }
}

fn secs_of(sign: char, num: i64, unit: char) -> (out: Option<i64>)
    requires
        num >= 0,
    ensures
        out == offset_secs(sign, num, unit),
{
    let m: i128 = if unit == 'S' {
        1
    } else if unit == 'M' {
        60
    } else if unit == 'H' {
        3600
    } else {
        86400
    };
    assert(num * m <= 0x8000_0000_0000_0000 * 86400 && num * m >= 0) by (nonlinear_arith)
        requires
            0 <= num < 0x8000_0000_0000_0000,
            0 < m <= 86400,
    ;
    let n: i128 = num as i128 * m;
    if n > i64::MAX as i128 {
        None
    } else if sign == '+' {
        Some(n as i64)
    } else {
        Some(-(n as i64))
    }
}

/// Law: the units relate as on the clock: a second is one second, 60 seconds are
/// a minute, 60 minutes an hour and 24 hours a day, in either direction and for
/// every number that does not overflow.
pub proof fn law_units_relate_as_on_the_clock(sign: char, n: i64)
    ensures
        offset_secs('+', n, 'S') == Some(n),
        n > i64::MIN ==> offset_secs('-', n, 'S') == Some((-n) as i64),
        i64::MIN <= 60 * n <= i64::MAX ==> offset_secs(sign, (60 * n) as i64, 'S') == offset_secs(sign, n, 'M'),
        i64::MIN <= 60 * n <= i64::MAX ==> offset_secs(sign, (60 * n) as i64, 'M') == offset_secs(sign, n, 'H'),
        i64::MIN <= 24 * n <= i64::MAX ==> offset_secs(sign, (24 * n) as i64, 'H') == offset_secs(sign, n, 'D'),
{
}

/// Law: an offset goes as far back as it goes forward, it is refused only where
/// its seconds do not fit, and a longer one of the same unit reaches further.
pub proof fn law_offsets_go_both_ways(unit: char, n: i64, m: i64)
    requires
        0 <= n < m,
        is_unit(unit),
    ensures
        offset_secs('+', n, unit) matches Some(a) ==> offset_secs('-', n, unit) == Some((-a) as i64),
        offset_secs('+', n, unit) is Some <==> offset_secs('-', n, unit) is Some,
        offset_secs('+', m, unit) matches Some(b) ==> (offset_secs('+', n, unit) matches Some(a) && 0 <= a < b),
        offset_secs('+', 0, unit) == Some(0i64),
{
    let u = unit_secs(unit);
    assert(u > 0);
    assert(0 <= n * u < m * u) by (nonlinear_arith)
        requires
            0 <= n < m,
            u > 0,
    ;
}

// ---------------------------------------------------------------------------
// Formats
// ---------------------------------------------------------------------------

/// What one specifier stands for.
pub open spec fn specifier(c: char) -> Option<Seq<char>> {
    if c == 'Y' || c == 'y' || c == 'm' || c == 'd' || c == 'H' || c == 'M' || c == 'S' {
        Some(seq!['%', c])
    } else if c == 'F' {
        Some("%Y-%m-%d"@)
    } else if c == 'T' {
        Some("%H:%M:%S"@)
    } else if c == 'z' || c == 'Z' {
        Some("%z"@)
    } else if c == '%' {
        Some("%%"@)
    } else {
        None
    }
}

/// `t` before what comes out, unless that is an error.
pub open spec fn before(t: Seq<char>, r: Result<Seq<char>, AppErrorV>) -> Result<Seq<char>, AppErrorV> {
    match r {
        Ok(s) => Ok(t + s),
        Err(e) => Err(e),
    }
}

/// A format of the documented subset as a format of `chrono`.
pub open spec fn chrono_format(s: Seq<char>) -> Result<Seq<char>, AppErrorV>
    decreases s.len(),
{
    if s.len() == 0 {
        Ok(Seq::empty())
    } else if s[0] != '%' {
        before(seq![s[0]], chrono_format(s.skip(1)))
    } else if s.len() == 1 {
        Err(AppErrorV::Template("trailing '%' in format"@))
    } else {
        match specifier(s[1]) {
            Some(t) => before(t, chrono_format(s.skip(2))),
            None => Err(AppErrorV::Template("unsupported strftime specifier '%"@ + seq![s[1]] + "'"@)),
        }
    }
}

fn specifier_text(c: char) -> (out: Option<String>)
    ensures
        views::opt(out) == specifier(c),
{
    if c == 'Y' || c == 'y' || c == 'm' || c == 'd' || c == 'H' || c == 'M' || c == 'S' {
        let mut s = String::new();
        s.push('%');
        s.push(c);
        assert(s@ =~= seq!['%', c]);
        Some(s)
    } else if c == 'F' {
        Some(copy("%Y-%m-%d"))
    } else if c == 'T' {
        Some(copy("%H:%M:%S"))
    } else if c == 'z' || c == 'Z' {
        Some(copy("%z"))
    } else if c == '%' {
        Some(copy("%%"))
    } else {
        None
    }
}

/// Translate the small strftime subset we document into chrono format codes.
pub fn strftime_to_chrono(fmt: &str) -> (out: AppResult<String>)
    ensures
        views::res(out) == chrono_format(fmt@),
{
    let v = chars_of(fmt);
    let mut out = String::new();
    let mut i: usize = 0;
    assert(fmt@.skip(0) =~= fmt@);
    proof {
        if let Ok(s) = chrono_format(fmt@) {
            assert(out@ + s =~= s);
        }
    }
    while i < v.len()
        invariant
            i <= v@.len(),
            v@ == fmt@,
            chrono_format(fmt@) == before(out@, chrono_format(fmt@.skip(i as int))),
        decreases v.len() - i,
    {
        let ghost rest = fmt@.skip(i as int);
        let ghost done = out@;
        let c = v[i];
        assert(rest[0] == c);
        if c != '%' {
            out.push(c);
            assert(rest.skip(1) =~= fmt@.skip(i + 1));
            proof {
                if let Ok(s) = chrono_format(rest.skip(1)) {
                    assert(done + (seq![c] + s) =~= done.push(c) + s);
                }
            }
            i += 1;
        } else if i + 1 == v.len() {
            return Err(AppError::Template(copy("trailing '%' in format")));
        } else {
            let n = v[i + 1];
            assert(rest[1] == n);
            match specifier_text(n) {
                Some(t) => {
                    out.append(t.as_str());
                    assert(rest.skip(2) =~= fmt@.skip(i + 2));
                    proof {
                        if let Ok(s) = chrono_format(rest.skip(2)) {
                            assert(done + (t@ + s) =~= done + t@ + s);
                        }
                    }
                    i += 2;
                },
                None => {
                    let u = char_text(n);
                    return Err(AppError::Template(cat3("unsupported strftime specifier '%", u.as_str(), "'")));
                },
            }
        }
    }
    assert(fmt@.skip(i as int) =~= Seq::<char>::empty());
    assert(out@ + Seq::<char>::empty() =~= out@);
    Ok(out)
}

// ---------------------------------------------------------------------------
// Tokens
// ---------------------------------------------------------------------------

/// What a token asks for.
#[derive(Debug)]
pub enum Demand {
    /// The state value under a key.
    State(String),
    /// An environment variable.
    Env(String),
    /// The time so many seconds from now, in a format of `chrono`.
    Time { call: String, offset: String, delta: i64, format: String },
    /// The token cannot be served.
    Fault(AppError),
    /// The token is not known.
    Unknown,
}

/// What a [`Demand`] says.
#[verifier::ext_equal]
pub enum DemandV {
    State(Seq<char>),
    Env(Seq<char>),
    Time { call: Seq<char>, offset: Seq<char>, delta: i64, format: Seq<char> },
    Fault(AppErrorV),
    Unknown,
}

impl View for Demand {
    type V = DemandV;

    open spec fn view(&self) -> DemandV {
        match self {
            Demand::State(k) => DemandV::State(k@),
            Demand::Env(n) => DemandV::Env(n@),
            Demand::Time { call, offset, delta, format } => DemandV::Time {
                call: call@,
                offset: offset@,
                delta: *delta,
                format: format@,
            },
            Demand::Fault(e) => DemandV::Fault(e@),
            Demand::Unknown => DemandV::Unknown,
        }
    }
}

/// A text without the copies of `p` that it starts with.
pub open spec fn strip_repeated(s: Seq<char>, p: Seq<char>) -> Seq<char>
    decreases s.len(),
{
    if p.len() > 0 && text::starts_with(s, p) {
        strip_repeated(s.skip(p.len() as int), p)
    } else {
        s
    }
}

fn without_repeated(s: &str, p: &str) -> (out: String)
    requires
        p@.len() > 0,
    ensures
        out@ == strip_repeated(s@, p@),
    decreases s@.len(),
{
    match without_prefix(s, p) {
        Some(rest) => without_repeated(rest.as_str(), p),
        None => copy(s),
    }
}

/// What stands between two single quotes.
pub open spec fn unquoted(s: Seq<char>) -> Option<Seq<char>> {
    if s.len() >= 2 && s[0] == '\'' && s.last() == '\'' {
        Some(s.subrange(1, s.len() - 1))
    } else {
        None
    }
}

fn unquote(s: &str) -> (out: Option<String>)
    ensures
        views::opt(out) == unquoted(s@),
{
    let v = chars_of(s);
    if v.len() >= 2 && v[0] == '\'' && v[v.len() - 1] == '\'' {
        Some(string_of(&v, 1, v.len() - 1))
    } else {
        None
    }
}

/// The call of a `sys.` token: up to the closing bracket.
pub open spec fn call_part(expr: Seq<char>) -> Seq<char> {
    let i = text::find(expr, ')');
    if i < expr.len() {
        expr.take(i + 1)
    } else {
        expr
    }
}

/// The offset of a `sys.` token: what follows the closing bracket.
pub open spec fn offset_part(expr: Seq<char>) -> Seq<char> {
    let i = text::find(expr, ')');
    if i < expr.len() {
        text::trim(expr.skip(i + 1))
    } else {
        ""@
    }
}

/// The format in the call, if it is quoted.
pub open spec fn format_part(call: Seq<char>) -> Option<Seq<char>> {
    unquoted(text::trim(text::trim_end_any(strip_repeated(call, "now("@), ")"@)))
}

pub open spec fn bad_format(call: Seq<char>) -> AppErrorV {
    AppErrorV::Template("bad sys.now format: '"@ + call + "'"@)
}

pub open spec fn too_far(off: Seq<char>) -> AppErrorV {
    AppErrorV::Template("sys.now offset overflow: '"@ + off + "'"@)
}

/// What a `sys.` token asks for.
pub open spec fn sys_demand(expr: Seq<char>) -> DemandV {
    let call = call_part(expr);
    let off = offset_part(expr);
    match format_part(call) {
        None => DemandV::Fault(bad_format(call)),
        Some(f) => match chrono_format(f) {
            Err(e) => DemandV::Fault(e),
            Ok(format) => if off == ""@ {
                DemandV::Time { call, offset: off, delta: 0, format }
            } else {
                match offset(off) {
                    Err(e) => DemandV::Fault(e),
                    Ok((sign, num, unit)) => match offset_secs(sign, num, unit) {
                        None => DemandV::Fault(too_far(off)),
                        Some(delta) => DemandV::Time { call, offset: off, delta, format },
                    },
                }
            },
        },
    }
}

/// What a token asks for, by its prefix.
pub open spec fn demand(token: Seq<char>) -> DemandV {
    let t = text::trim(token);
    if text::starts_with(t, "state."@) {
        DemandV::State(t.skip(6))
    } else if text::starts_with(t, "env."@) {
        DemandV::Env(t.skip(4))
    } else if text::starts_with(t, "sys."@) {
        sys_demand(text::trim(t.skip(4)))
    } else {
        DemandV::Unknown
    }
}

proof fn lemma_offset_not_negative(s: Seq<char>)
    ensures
        offset(s) matches Ok(x) ==> x.1 >= 0 && (x.0 == '+' || x.0 == '-'),
{
    let t = unsigned(s);
    let n = digits_len(t);
    lemma_digits(t);
    if n > 0 {
        let d = t.take(n);
        assert(d[0] == t[0]);
        lemma_read_not_negative(d, 0);
    }
}

proof fn lemma_digits(t: Seq<char>)
    ensures
        0 <= digits_len(t) <= t.len(),
        digits_len(t) > 0 ==> text::is_digit(t[0]),
    decreases t.len(),
{
    if t.len() > 0 && text::is_digit(t[0]) {
        lemma_digits(t.skip(1));
    }
}

proof fn lemma_read_not_negative(s: Seq<char>, acc: int)
    requires
        0 <= acc <= i64::MAX,
    ensures
        text::read_digits(s, acc, false) matches Ok(n) ==> 0 <= n <= i64::MAX,
    decreases s.len(),
{
    if s.len() > 0 && text::is_digit(s[0]) && acc * 10 + text::digit_value(s[0]) <= i64::MAX {
        lemma_read_not_negative(s.drop_first(), acc * 10 + text::digit_value(s[0]));
    }
}

fn sys_demand_of(expr: &str) -> (out: Demand)
    ensures
        out@ == sys_demand(expr@),
{
    let v = chars_of(expr);
    let i = position(&v, ')', 0);
    let call = if i < v.len() {
        string_of(&v, 0, i + 1)
    } else {
        copy(expr)
    };
    let off = if i < v.len() {
        let tail = string_of(&v, i + 1, v.len());
        assert(tail@ =~= expr@.skip(i + 1));
        trimmed(tail.as_str())
    } else {
        copy("")
    };
    assert(call@ =~= call_part(expr@));
    proof {
        reveal_strlit("now(");
    }
    let head = without_repeated(call.as_str(), "now(");
    let body = trimmed_end_any(head.as_str(), ")");
    let inner = trimmed(body.as_str());
    match unquote(inner.as_str()) {
        None => Demand::Fault(AppError::Template(cat3("bad sys.now format: '", call.as_str(), "'"))),
        Some(f) => match strftime_to_chrono(f.as_str()) {
            Err(e) => Demand::Fault(e),
            Ok(format) => if same(off.as_str(), "") {
                Demand::Time { call, offset: off, delta: 0, format }
            } else {
                proof {
                    lemma_offset_not_negative(off@);
                }
                match parse_offset(off.as_str()) {
                    Err(e) => Demand::Fault(e),
                    Ok((sign, num, unit)) => match secs_of(sign, num, unit) {
                        None => Demand::Fault(AppError::Template(cat3("sys.now offset overflow: '", off.as_str(), "'"))),
                        Some(delta) => Demand::Time { call, offset: off, delta, format },
                    },
                }
            },
        },
    }
}

/// What a token asks for.
pub fn demand_of(token: &str) -> (out: Demand)
    ensures
        out@ == demand(token@),
{
    proof {
        reveal_strlit("state.");
        reveal_strlit("env.");
        reveal_strlit("sys.");
    }
    let t = trimmed(token);
    if let Some(key) = without_prefix(t.as_str(), "state.") {
        return Demand::State(key);
    }
    if let Some(name) = without_prefix(t.as_str(), "env.") {
        return Demand::Env(name);
    }
    if let Some(expr) = without_prefix(t.as_str(), "sys.") {
        let e = trimmed(expr.as_str());
        return sys_demand_of(e.as_str());
    }
    Demand::Unknown
}

// ---------------------------------------------------------------------------
// Answers
// ---------------------------------------------------------------------------

/// What a state resolver answered.
pub open spec fn answer(o: AppResult<Option<String>>) -> Result<Option<Seq<char>>, AppErrorV> {
    match o {
        Ok(v) => Ok(views::opt(v)),
        Err(e) => Err(e@),
    }
}

/// A state token's text, from what the resolver answered.
pub open spec fn state_text(key: Seq<char>, a: Result<Option<Seq<char>>, AppErrorV>) -> Result<Seq<char>, AppErrorV> {
    match a {
        Err(e) => Err(e),
        Ok(None) => Err(AppErrorV::Template("state '"@ + key + "' has no value"@)),
        Ok(Some(v)) => Ok(v),
    }
}

pub fn settle_state(key: &str, a: AppResult<Option<String>>) -> (out: AppResult<String>)
    ensures
        views::res(out) == state_text(key@, answer(a)),
{
    match a {
        Err(e) => Err(e),
        Ok(None) => Err(AppError::Template(cat3("state '", key, "' has no value"))),
        Ok(Some(v)) => Ok(v),
    }
}

/// An environment token's text.
pub open spec fn env_text(name: Seq<char>, env: tokens::Env) -> Result<Seq<char>, AppErrorV> {
    match strmap::at(env, name) {
        Some(v) => Ok(v),
        None => Err(AppErrorV::Template("environment variable '"@ + name + "' not set"@)),
    }
}

pub fn settle_env(name: &str, env: &StrMap<String>) -> (out: AppResult<String>)
    ensures
        views::res(out) == env_text(name@, env@),
{
    match env.get(name) {
        Some(v) => Ok(v.clone()),
        None => Err(AppError::Template(cat3("environment variable '", name, "' not set"))),
    }
}

/// A time token's text, from the point in time that the clock gave: a quoted
/// SQL literal.
pub open spec fn time_text(call: Seq<char>, off: Seq<char>, format: Seq<char>, m: Option<Moment>) -> Result<
    Seq<char>,
    AppErrorV,
> {
    match m {
        None => Err(too_far(off)),
        Some(t) => match clock::chrono_text(t.secs, t.nanos, t.offset, format) {
            Some(s) => Ok(text::quoted(s, '\'')),
            None => Err(bad_format(call)),
        },
    }
}

pub fn settle_time(call: &str, off: &str, format: &str, m: Option<Moment>) -> (out: AppResult<String>)
    ensures
        views::res(out) == time_text(call@, off@, format@, m),
{
    match m {
        None => Err(AppError::Template(cat3("sys.now offset overflow: '", off, "'"))),
        Some(t) => match moment_text(t, format) {
            Some(s) => Ok(quote(s.as_str(), '\'')),
            None => Err(AppError::Template(cat3("bad sys.now format: '", call, "'"))),
        },
    }
}

/// The results one after the other, or the first error.
pub open spec fn all_told(results: Seq<Result<Seq<char>, AppErrorV>>) -> Result<Seq<char>, AppErrorV>
    decreases results.len(),
{
    if results.len() == 0 {
        Ok(Seq::empty())
    } else {
        match all_told(results.drop_last()) {
            Err(e) => Err(e),
            Ok(t) => before(t, results.last()),
        }
    }
}

/// What can be answered while a text is expanded: to a state key, to the
/// question for the time so many seconds from now, and from the environment.
pub struct Answers {
    pub state: spec_fn(Seq<char>, Result<Option<Seq<char>>, AppErrorV>) -> bool,
    pub clock: spec_fn(i64, Option<Moment>) -> bool,
    pub env: tokens::Env,
}

/// Whether `r` can be what a state token comes to.
pub open spec fn state_gives(a: Answers, key: Seq<char>, r: Result<Seq<char>, AppErrorV>) -> bool {
    exists|x: Result<Option<Seq<char>>, AppErrorV>| #[trigger] (a.state)(key, x) && r == state_text(key, x)
}

/// Whether `r` can be what a time token comes to.
pub open spec fn time_gives(
    a: Answers,
    call: Seq<char>,
    off: Seq<char>,
    delta: i64,
    format: Seq<char>,
    r: Result<Seq<char>, AppErrorV>,
) -> bool {
    exists|m: Option<Moment>| #[trigger] (a.clock)(delta, m) && r == time_text(call, off, format, m)
}

/// Whether `r` can be what a piece of the text comes to.
pub open spec fn piece_gives(a: Answers, p: PieceV, r: Result<Seq<char>, AppErrorV>) -> bool {
    match p {
        PieceV::Text(s) => r == Ok::<Seq<char>, AppErrorV>(s),
        PieceV::Token(t) => match demand(t) {
            DemandV::State(key) => state_gives(a, key, r),
            DemandV::Env(name) => r == env_text(name, a.env),
            DemandV::Time { call, offset, delta, format } => time_gives(a, call, offset, delta, format, r),
            DemandV::Fault(e) => r == Err::<Seq<char>, AppErrorV>(e),
            DemandV::Unknown => r == Ok::<Seq<char>, AppErrorV>(p.source()),
        },
    }
}

/// Whether the results are what the pieces came to, up to the first error.
pub open spec fn pieces_give(a: Answers, p: Seq<PieceV>, results: Seq<Result<Seq<char>, AppErrorV>>) -> bool {
    &&& results.len() <= p.len()
    &&& forall|i: int| 0 <= i < results.len() ==> #[trigger] piece_gives(a, p[i], results[i])
    &&& results.len() == p.len() || all_told(results) is Err
}

/// Whether `r` can be what a text comes to: its pieces one after the other, or
/// the first error.
pub open spec fn gives(a: Answers, s: Seq<char>, r: Result<Seq<char>, AppErrorV>) -> bool {
    exists|results: Seq<Result<Seq<char>, AppErrorV>>| #[trigger]
        pieces_give(a, tokens::pieces(s), results) && r == all_told(results)
}

/// Whether whatever `a` answers, `b` may answer too.
pub open spec fn covers(b: Answers, a: Answers) -> bool {
    &&& forall|k: Seq<char>, x: Result<Option<Seq<char>>, AppErrorV>| #[trigger] (a.state)(k, x) ==> (b.state)(k, x)
    &&& forall|d: i64, m: Option<Moment>| #[trigger] (a.clock)(d, m) ==> (b.clock)(d, m)
    &&& a.env == b.env
}

pub proof fn lemma_covered(a: Answers, b: Answers, s: Seq<char>, r: Result<Seq<char>, AppErrorV>)
    requires
        covers(b, a),
        gives(a, s, r),
    ensures
        gives(b, s, r),
{
    let p = tokens::pieces(s);
    let results = choose|results: Seq<Result<Seq<char>, AppErrorV>>| #[trigger]
        pieces_give(a, p, results) && r == all_told(results);
    assert forall|i: int| 0 <= i < results.len() implies #[trigger] piece_gives(b, p[i], results[i]) by {
        assert(piece_gives(a, p[i], results[i]));
        if let PieceV::Token(t) = p[i] {
            match demand(t) {
                DemandV::State(key) => {
                    let x = choose|x: Result<Option<Seq<char>>, AppErrorV>| #[trigger]
                        (a.state)(key, x) && results[i] == state_text(key, x);
                    assert((b.state)(key, x));
                    assert(state_gives(b, key, results[i]));
                },
                DemandV::Time { call, offset, delta, format } => {
                    assert(time_gives(a, call, offset, delta, format, results[i]));
                    let m = choose|m: Option<Moment>| #[trigger]
                        (a.clock)(delta, m) && results[i] == time_text(call, offset, format, m);
                    assert((b.clock)(delta, m));
                    assert(time_gives(b, call, offset, delta, format, results[i]));
                },
                _ => {},
            }
        }
    }
    assert(pieces_give(b, p, results));
}

/// What templates are expanded with: a resolver of state keys, a clock that
/// gives the local time so many seconds from now, and the environment.
pub struct Template<'a, S, N> where S: Fn(&str) -> AppResult<Option<String>>, N: Fn(i64) -> Option<Moment> {
    /// Renders a state value as a ready-to-use SQL literal.
    pub resolve_state: &'a S,
    /// The local time so many seconds from now; nothing where there is none.
    pub now: &'a N,
    pub env: &'a StrMap<String>,
}

impl<'a, S, N> Template<'a, S, N> where S: Fn(&str) -> AppResult<Option<String>>, N: Fn(i64) -> Option<Moment> {
    /// The resolver and the clock can be asked anything.
    pub open spec fn ready(self) -> bool {
        &&& forall|k: &str| call_requires(*self.resolve_state, (k,))
        &&& forall|d: i64| call_requires(*self.now, (d,))
    }

    /// Whether the resolver can answer a key so.
    pub open spec fn tells(self, key: Seq<char>, x: Result<Option<Seq<char>>, AppErrorV>) -> bool {
        exists|k: &str, o: AppResult<Option<String>>|
            k@ == key && #[trigger] call_ensures(*self.resolve_state, (k,), o) && x == answer(o)
    }

    /// What the resolver, the clock and the environment can answer.
    pub open spec fn answers(self) -> Answers {
        Answers {
            state: |key: Seq<char>, x: Result<Option<Seq<char>>, AppErrorV>| self.tells(key, x),
            clock: |d: i64, m: Option<Moment>| call_ensures(*self.now, (d,), m),
            env: self.env@,
        }
    }

    /// What a token comes to.
    pub fn expand_token(&self, token: &str) -> (out: AppResult<String>)
        requires
            self.ready(),
        ensures
            piece_gives(self.answers(), PieceV::Token(token@), views::res(out)),
    {
        let ghost a = self.answers();
        match demand_of(token) {
            Demand::State(key) => {
                let k: &str = key.as_str();
                let o = (*self.resolve_state)(k);
                let ghost x = answer(o);
                proof {
                    assert(call_ensures(*self.resolve_state, (k,), o));
                    assert(self.tells(key@, x));
                    assert((a.state)(key@, x));
                }
                settle_state(k, o)
            },
            Demand::Env(name) => settle_env(name.as_str(), self.env),
            Demand::Time { call, offset, delta, format } => {
                let m = (*self.now)(delta);
                let out = settle_time(call.as_str(), offset.as_str(), format.as_str(), m);
                proof {
                    assert((a.clock)(delta, m));
                    assert(time_gives(a, call@, offset@, delta, format@, views::res(out)));
                }
                out
            },
            Demand::Fault(e) => Err(e),
            Demand::Unknown => Ok(cat3("${", token, "}")),
        }
    }

    /// The text with its tokens filled in, or the first error.
    pub fn expand(&self, input: &str) -> (out: AppResult<String>)
        requires
            self.ready(),
        ensures
            gives(self.answers(), input@, views::res(out)),
    {
        let ghost a = self.answers();
        let parts = split_tokens(input);
        let ghost all = tokens::pieces(input@);
        let ghost mut results: Seq<Result<Seq<char>, AppErrorV>> = Seq::empty();
        let mut out = String::new();
        let mut i: usize = 0;
        while i < parts.len()
            invariant
                i <= parts.len(),
                self.ready(),
                a == self.answers(),
                all == tokens::pieces(input@),
                views::list(parts@) == all,
                results.len() == i,
                forall|k: int| 0 <= k < i ==> #[trigger] piece_gives(a, all[k], results[k]),
                all_told(results) == Ok::<Seq<char>, AppErrorV>(out@),
            decreases parts.len() - i,
        {
            assert(all[i as int] == parts@[i as int]@);
            let r = match &parts[i] {
                Piece::Text(s) => Ok(s.clone()),
                Piece::Token(t) => self.expand_token(t.as_str()),
            };
            proof {
                assert(piece_gives(a, all[i as int], views::res(r)));
                let longer = results.push(views::res(r));
                assert(longer.drop_last() =~= results);
                assert forall|k: int| 0 <= k < i + 1 implies #[trigger] piece_gives(a, all[k], longer[k]) by {
                    assert(k < i ==> longer[k] == results[k]);
                }
                results = longer;
            }
            match r {
                Ok(s) => {
                    out.append(s.as_str());
                },
                Err(e) => {
                    assert(pieces_give(a, all, results));
                    return Err(e);
                },
            }
            i += 1;
        }
        assert(all.len() == parts@.len());
        assert(pieces_give(a, all, results));
        Ok(out)
    }
}

proof fn lemma_all_told(results: Seq<Result<Seq<char>, AppErrorV>>, texts: Seq<Seq<char>>)
    requires
        results.len() == texts.len(),
        forall|i: int|
            0 <= i < texts.len() ==> #[trigger] results[i] == Ok::<Seq<char>, AppErrorV>(texts[i]),
    ensures
        all_told(results) == Ok::<Seq<char>, AppErrorV>(tokens::concat(texts)),
    decreases results.len(),
{
    if results.len() > 0 {
        let n = results.len() - 1;
        let r = results.drop_last();
        let t = texts.drop_last();
        assert forall|i: int| 0 <= i < t.len() implies #[trigger] r[i] == Ok::<Seq<char>, AppErrorV>(t[i]) by {
            assert(results[i] == Ok::<Seq<char>, AppErrorV>(texts[i]));
        }
        lemma_all_told(r, t);
        assert(texts =~= t.push(texts.last()));
        tokens::lemma_concat_push(t, texts.last());
        assert(results[n] == Ok::<Seq<char>, AppErrorV>(texts[n]));
    }
}

/// Law: a text without tokens, or with unknown ones only, comes out as it is,
/// whatever is answered.
pub proof fn law_unknown_tokens_stay(a: Answers, s: Seq<char>, r: Result<Seq<char>, AppErrorV>)
    requires
        gives(a, s, r),
        forall|i: int|
            0 <= i < tokens::pieces(s).len() ==> (#[trigger] tokens::pieces(s)[i] matches PieceV::Token(x) ==> demand(x)
                == DemandV::Unknown),
    ensures
        r == Ok::<Seq<char>, AppErrorV>(s),
{
    let p = tokens::pieces(s);
    let results = choose|results: Seq<Result<Seq<char>, AppErrorV>>| #[trigger]
        pieces_give(a, p, results) && r == all_told(results);
    let n = results.len() as int;
    let texts = tokens::sources(p).take(n);
    assert forall|i: int| 0 <= i < n implies #[trigger] results[i] == Ok::<Seq<char>, AppErrorV>(texts[i]) by {
        assert(piece_gives(a, p[i], results[i]));
    }
    lemma_all_told(results, texts);
    assert(texts =~= tokens::sources(p));
    tokens::law_pieces_make_up_text(s);
}

proof fn lemma_all_told_append(a: Seq<Result<Seq<char>, AppErrorV>>, b: Seq<Result<Seq<char>, AppErrorV>>)
    ensures
        all_told(a + b) == (match all_told(a) {
            Err(e) => Err(e),
            Ok(t) => before(t, all_told(b)),
        }),
    decreases b.len(),
{
    if b.len() == 0 {
        assert(a + b =~= a);
        if all_told(a) is Ok {
            assert(all_told(a)->Ok_0 + Seq::<char>::empty() =~= all_told(a)->Ok_0);
        }
    } else {
        assert((a + b).drop_last() =~= a + b.drop_last());
        assert((a + b).last() == b.last());
        lemma_all_told_append(a, b.drop_last());
        if all_told(a) is Ok && all_told(b.drop_last()) is Ok && b.last() is Ok {
            let t = all_told(a)->Ok_0;
            let u = all_told(b.drop_last())->Ok_0;
            let v = b.last()->Ok_0;
            assert((t + u) + v =~= t + (u + v));
        }
    }
}

/// What follows a token that came to `x`: its error, or the text so far and
/// what the rest comes to.
pub open spec fn then_rest(
    a: Answers,
    head: Seq<char>,
    x: Result<Seq<char>, AppErrorV>,
    rest: Seq<char>,
    r: Result<Seq<char>, AppErrorV>,
) -> bool {
    match x {
        Err(e) => r == Err::<Seq<char>, AppErrorV>(e),
        Ok(v) => exists|y: Result<Seq<char>, AppErrorV>| #[trigger] gives(a, rest, y) && r == before(head + v, y),
    }
}

/// Law: a template is expanded from the left: what stands before the first token
/// stays, the token comes to a text or to the error of the whole, and the rest is
/// expanded by itself. What a token came to is not looked at again.
pub proof fn law_template_goes_from_the_left(
    a: Answers,
    head: Seq<char>,
    t: Seq<char>,
    rest: Seq<char>,
    r: Result<Seq<char>, AppErrorV>,
)
    requires
        tokens::opening(head, 0) == head.len(),
        !t.contains('}'),
    ensures
        gives(a, head + ("${"@ + t + "}"@) + rest, r) <==> exists|x: Result<Seq<char>, AppErrorV>| #[trigger]
            piece_gives(a, PieceV::Token(t), x) && then_rest(a, head, x, rest, r),
{
    let s = head + ("${"@ + t + "}"@) + rest;
    tokens::law_parts_come_from_the_left(head, t, rest);
    let p = tokens::pieces(s);
    let q = tokens::pieces(rest);
    assert(p[0] == PieceV::Text(head) && p[1] == PieceV::Token(t));
    assert(p.skip(2) =~= q);
    if gives(a, s, r) {
        let results = choose|results: Seq<Result<Seq<char>, AppErrorV>>| #[trigger]
            pieces_give(a, p, results) && r == all_told(results);
        lemma_two_results(a, head, t, q, results);
        let x = results[1];
        if x is Ok {
            let y = all_told(results.skip(2));
            assert(pieces_give(a, q, results.skip(2)));
            assert(gives(a, rest, y) && r == before(head + x->Ok_0, y));
        }
        assert(piece_gives(a, PieceV::Token(t), x) && then_rest(a, head, x, rest, r));
    }
    if exists|x: Result<Seq<char>, AppErrorV>| #[trigger]
        piece_gives(a, PieceV::Token(t), x) && then_rest(a, head, x, rest, r) {
        let x = choose|x: Result<Seq<char>, AppErrorV>| #[trigger]
            piece_gives(a, PieceV::Token(t), x) && then_rest(a, head, x, rest, r);
        let two = seq![Ok::<Seq<char>, AppErrorV>(head), x];
        lemma_two(head, x);
        if x is Err {
            assert forall|i: int| 0 <= i < two.len() implies #[trigger] piece_gives(a, p[i], two[i]) by {}
            assert(pieces_give(a, p, two));
        } else {
            let y = choose|y: Result<Seq<char>, AppErrorV>| #[trigger]
                gives(a, rest, y) && r == before(head + x->Ok_0, y);
            let more = choose|results: Seq<Result<Seq<char>, AppErrorV>>| #[trigger]
                pieces_give(a, q, results) && y == all_told(results);
            let results = two + more;
            lemma_all_told_append(two, more);
            assert forall|i: int| 0 <= i < results.len() implies #[trigger] piece_gives(a, p[i], results[i]) by {
                if i >= 2 {
                    assert(p[i] == q[i - 2]);
                    assert(piece_gives(a, q[i - 2], more[i - 2]));
                }
            }
            assert(pieces_give(a, p, results));
        }
        assert(gives(a, s, r));
    }
}

proof fn lemma_two(head: Seq<char>, x: Result<Seq<char>, AppErrorV>)
    ensures
        all_told(seq![Ok::<Seq<char>, AppErrorV>(head), x]) == before(head, x),
        all_told(seq![Ok::<Seq<char>, AppErrorV>(head)]) == Ok::<Seq<char>, AppErrorV>(head),
{
    let one = seq![Ok::<Seq<char>, AppErrorV>(head)];
    let two = seq![Ok::<Seq<char>, AppErrorV>(head), x];
    assert(one.drop_last() =~= Seq::<Result<Seq<char>, AppErrorV>>::empty());
    assert(all_told(one.drop_last()) == Ok::<Seq<char>, AppErrorV>(Seq::empty()));
    assert(Seq::<char>::empty() + head =~= head);
    assert(two.drop_last() =~= one);
}

proof fn lemma_two_results(
    a: Answers,
    head: Seq<char>,
    t: Seq<char>,
    q: Seq<PieceV>,
    results: Seq<Result<Seq<char>, AppErrorV>>,
)
    requires
        pieces_give(a, seq![PieceV::Text(head), PieceV::Token(t)] + q, results),
    ensures
        results.len() >= 2,
        piece_gives(a, PieceV::Token(t), results[1]),
        results[1] matches Err(e) ==> all_told(results) == Err::<Seq<char>, AppErrorV>(e),
        results[1] matches Ok(v) ==> pieces_give(a, q, results.skip(2)) && all_told(results) == before(
            head + v,
            all_told(results.skip(2)),
        ),
{
    let p = seq![PieceV::Text(head), PieceV::Token(t)] + q;
    if results.len() >= 1 {
        assert(piece_gives(a, p[0], results[0]));
    }
    if results.len() < 2 {
        lemma_two(head, Ok(head));
        if results.len() == 1 {
            assert(results =~= seq![Ok::<Seq<char>, AppErrorV>(head)]);
        }
        assert(false);
    }
    let x = results[1];
    assert(piece_gives(a, p[1], x));
    let two = seq![Ok::<Seq<char>, AppErrorV>(head), x];
    let more = results.skip(2);
    assert(results =~= two + more);
    lemma_two(head, x);
    lemma_all_told_append(two, more);
    assert forall|i: int| 0 <= i < more.len() implies #[trigger] piece_gives(a, q[i], more[i]) by {
        assert(piece_gives(a, p[i + 2], results[i + 2]));
    }
}

// ---------------------------------------------------------------------------
// What tokens mean
// ---------------------------------------------------------------------------

proof fn lemma_digits_len(d: Seq<char>, rest: Seq<char>)
    requires
        forall|i: int| 0 <= i < d.len() ==> '0' <= #[trigger] d[i] <= '9',
        reading::no_digit(rest),
    ensures
        digits_len(d + rest) == d.len(),
    decreases d.len(),
{
    let s = d + rest;
    if d.len() == 0 {
        assert(s =~= rest);
    } else {
        assert(s.skip(1) =~= d.skip(1) + rest);
        assert(s[0] == d[0]);
        lemma_digits_len(d.skip(1), rest);
    }
}

proof fn lemma_offset_parts(d: Seq<char>, unit: char, rest: Seq<char>)
    requires
        reading::all_digits(d),
        !('0' <= unit <= '9'),
    ensures
        ({
            let t = d + (seq![unit] + rest);
            &&& digits_len(t) == d.len()
            &&& t.take(d.len() as int) == d
            &&& t[d.len() as int] == unit
            &&& unsigned(t) == t
            &&& unsigned(seq!['+'] + t) == t
            &&& unsigned(seq!['-'] + t) == t
            &&& d[0] != '-'
        }),
{
    let r = seq![unit] + rest;
    let t = d + r;
    assert(r[0] == unit);
    lemma_digits_len(d, r);
    assert(t.take(d.len() as int) =~= d);
    assert(t[0] == d[0]);
    assert('0' <= d[0] <= '9');
    assert((seq!['+'] + t).skip(1) =~= t);
    assert((seq!['-'] + t).skip(1) =~= t);
}

/// Law: an offset is a sign, plus where there is none, the number that its digits
/// stand for, and one of the four units; a number that does not fit and a letter
/// that is no unit are refused.
pub proof fn law_offset_is_sign_number_and_unit(d: Seq<char>, unit: char, rest: Seq<char>)
    requires
        reading::all_digits(d),
        !('0' <= unit <= '9'),
    ensures
        ({
            let t = d + (seq![unit] + rest);
            let n = reading::run_value(d);
            &&& n <= i64::MAX && is_unit(unit) ==> {
                &&& offset(t) == Ok::<(char, i64, char), AppErrorV>(('+', n as i64, unit))
                &&& offset(seq!['+'] + t) == Ok::<(char, i64, char), AppErrorV>(('+', n as i64, unit))
                &&& offset(seq!['-'] + t) == Ok::<(char, i64, char), AppErrorV>(('-', n as i64, unit))
            }
            &&& n > i64::MAX || !is_unit(unit) ==> offset(t) is Err && offset(seq!['+'] + t) is Err && offset(
                seq!['-'] + t,
            ) is Err
        }),
{
    lemma_offset_parts(d, unit, rest);
    reading::law_whole_numbers_are_read_by_value(d);
    let t = d + (seq![unit] + rest);
    assert(t[0] == d[0]);
    assert((seq!['+'] + t)[0] == '+' && (seq!['-'] + t)[0] == '-');
}

/// Law: the units are seconds, minutes, hours and days; there is no other.
pub proof fn law_units_are_four(c: char)
    ensures
        is_unit(c) <==> c == 'S' || c == 'M' || c == 'H' || c == 'D',
{
}

/// Law: a format is translated piece by piece: where the first part of it is a
/// whole format, the rest is translated behind it.
pub proof fn law_format_goes_piece_by_piece(a: Seq<char>, b: Seq<char>)
    requires
        chrono_format(a) is Ok,
    ensures
        chrono_format(a + b) == before(chrono_format(a)->Ok_0, chrono_format(b)),
    decreases a.len(),
{
    let s = a + b;
    if a.len() == 0 {
        assert(s =~= b);
        if let Ok(y) = chrono_format(b) {
            assert(Seq::<char>::empty() + y =~= y);
        }
    } else if a[0] != '%' {
        assert(s.skip(1) =~= a.skip(1) + b);
        law_format_goes_piece_by_piece(a.skip(1), b);
        if let Ok(y) = chrono_format(b) {
            let x = chrono_format(a.skip(1))->Ok_0;
            assert(seq![a[0]] + (x + y) =~= (seq![a[0]] + x) + y);
        }
    } else {
        assert(s.skip(2) =~= a.skip(2) + b);
        assert(s[1] == a[1]);
        law_format_goes_piece_by_piece(a.skip(2), b);
        let t = specifier(a[1])->Some_0;
        if let Ok(y) = chrono_format(b) {
            let x = chrono_format(a.skip(2))->Ok_0;
            assert(t + (x + y) =~= (t + x) + y);
        }
    }
}

/// Law: text without a percent sign stays as it is.
pub proof fn law_plain_text_stays_in_a_format(s: Seq<char>)
    requires
        !s.contains('%'),
    ensures
        chrono_format(s) == Ok::<Seq<char>, AppErrorV>(s),
    decreases s.len(),
{
    if s.len() > 0 {
        assert(s.contains(s[0]));
        assert forall|i: int| 0 <= i < s.skip(1).len() implies #[trigger] s.skip(1)[i] != '%' by {
            assert(s.contains(s[i + 1]));
        }
        law_plain_text_stays_in_a_format(s.skip(1));
        assert(seq![s[0]] + s.skip(1) =~= s);
    } else {
        assert(s =~= Seq::<char>::empty());
    }
}

/// Law: a specifier for a part of the date or time, for the offset, and for a
/// percent sign stands for itself; any other letter but `F`, `T` and `Z` is
/// refused, and so is a percent sign at the end.
pub proof fn law_specifiers_stand_for_themselves(c: char, rest: Seq<char>)
    ensures
        c == 'Y' || c == 'y' || c == 'm' || c == 'd' || c == 'H' || c == 'M' || c == 'S' || c == 'z' || c == '%'
            ==> chrono_format(seq!['%', c] + rest) == before(seq!['%', c], chrono_format(rest)),
        !(c == 'Y' || c == 'y' || c == 'm' || c == 'd' || c == 'H' || c == 'M' || c == 'S' || c == 'z' || c == '%' || c == 'F'
            || c == 'T' || c == 'Z') ==> chrono_format(seq!['%', c] + rest) is Err,
        chrono_format(seq!['%']) is Err,
{
    reveal_strlit("%z");
    reveal_strlit("%%");
    let s = seq!['%', c] + rest;
    assert(s.skip(2) =~= rest);
    assert("%z"@ =~= seq!['%', 'z']);
    assert("%%"@ =~= seq!['%', '%']);
}

/// Law: the short forms mean the long ones: `%F` the date from the year down, `%T`
/// the time from the hour down, `%Z` the offset.
pub proof fn law_short_formats_mean_the_long_ones(rest: Seq<char>)
    ensures
        chrono_format("%F"@ + rest) == chrono_format("%Y-%m-%d"@ + rest),
        chrono_format("%T"@ + rest) == chrono_format("%H:%M:%S"@ + rest),
        chrono_format("%Z"@ + rest) == chrono_format("%z"@ + rest),
{
    reveal_strlit("%F");
    reveal_strlit("%T");
    reveal_strlit("%Z");
    reveal_strlit("%z");
    reveal_strlit("%Y-%m-%d");
    reveal_strlit("%H:%M:%S");
    assert(("%F"@ + rest).skip(2) =~= rest);
    assert(("%T"@ + rest).skip(2) =~= rest);
    assert(("%Z"@ + rest).skip(2) =~= rest);
    assert(("%z"@ + rest).skip(2) =~= rest);
    lemma_long_format('Y', '-', 'm', 'd');
    lemma_long_format('H', ':', 'M', 'S');
    assert("%Y-%m-%d"@ =~= seq!['%', 'Y', '-', '%', 'm', '-', '%', 'd']);
    assert("%H:%M:%S"@ =~= seq!['%', 'H', ':', '%', 'M', ':', '%', 'S']);
    law_format_goes_piece_by_piece("%Y-%m-%d"@, rest);
    law_format_goes_piece_by_piece("%H:%M:%S"@, rest);
}

proof fn lemma_long_format(a: char, mark: char, b: char, c: char)
    requires
        mark == '-' || mark == ':',
        a == 'Y' || a == 'H',
        b == 'm' || b == 'M',
        c == 'd' || c == 'S',
    ensures
        chrono_format(seq!['%', a, mark, '%', b, mark, '%', c]) == Ok::<Seq<char>, AppErrorV>(
            seq!['%', a, mark, '%', b, mark, '%', c],
        ),
{
    let none = Seq::<char>::empty();
    let m = seq![mark];
    let (x, y, z) = (seq!['%', a], seq!['%', b], seq!['%', c]);
    assert(!m.contains('%'));
    law_plain_text_stays_in_a_format(m);
    law_specifiers_stand_for_themselves(a, none);
    law_specifiers_stand_for_themselves(b, none);
    law_specifiers_stand_for_themselves(c, none);
    assert(x + none =~= x && y + none =~= y && z + none =~= z);
    assert(chrono_format(none) == Ok::<Seq<char>, AppErrorV>(none));
    law_format_goes_piece_by_piece(x, m);
    law_format_goes_piece_by_piece(x + m, y);
    law_format_goes_piece_by_piece(x + m + y, m);
    law_format_goes_piece_by_piece(x + m + y + m, z);
    assert(x + m + y + m + z =~= seq!['%', a, mark, '%', b, mark, '%', c]);
}

/// Law: a token asks for a state key or an environment variable by its prefix,
/// whatever white space stands round it.
pub proof fn law_tokens_ask_by_their_prefix(a: Seq<char>, name: Seq<char>, b: Seq<char>)
    requires
        text::blank(a),
        text::blank(b),
        name.len() > 0,
        !text::is_space(name.last()),
    ensures
        demand(a + ("state."@ + name) + b) == DemandV::State(name),
        demand(a + ("env."@ + name) + b) == DemandV::Env(name),
{
    reveal_strlit("state.");
    reveal_strlit("env.");
    let s = "state."@ + name;
    let e = "env."@ + name;
    assert(s[0] == 's' && s.last() == name.last());
    assert(e[0] == 'e' && e.last() == name.last());
    text::law_trim_takes_off_outer_space(a, s, b);
    text::law_trim_takes_off_outer_space(a, e, b);
    assert(s.take(6) =~= "state."@);
    assert(s.skip(6) =~= name);
    assert(e.take(4) =~= "env."@);
    assert(e.skip(4) =~= name);
    assert("state."@[0] == 's');
    assert(text::starts_with(e, "state."@) ==> e.take(6)[0] == e[0]);
}

/// Law: a token with none of the three prefixes asks for nothing.
pub proof fn law_other_tokens_ask_for_nothing(t: Seq<char>)
    ensures
        demand(t) is Unknown <==> !text::starts_with(text::trim(t), "state."@) && !text::starts_with(text::trim(t), "env."@)
            && !text::starts_with(text::trim(t), "sys."@),
{
}

proof fn lemma_now_call(f: Seq<char>)
    requires
        !f.contains(')'),
    ensures
        ({
            let call = "now('"@ + f + "')"@;
            &&& text::find(call, ')') == call.len() - 1
            &&& format_part(call) == Some(f)
        }),
{
    reveal_strlit("now('");
    reveal_strlit("')");
    reveal_strlit("now(");
    reveal_strlit(")");
    let none = Seq::<char>::empty();
    let call = "now('"@ + f + "')"@;
    let head = "now('"@ + f + seq!['\''];
    assert(call =~= head + seq![')'] + none);
    assert forall|i: int| 0 <= i < head.len() implies #[trigger] head[i] != ')' by {
        if 5 <= i < 5 + f.len() {
            assert(f.contains(f[i - 5]));
        }
    }
    text::law_find_is_the_first_place(head, ')', none);
    let q = seq!['\''] + f + seq!['\''];
    let t = q + ")"@;
    assert(call.take(4) =~= "now("@);
    assert(call.skip(4) =~= t);
    assert(t[0] == '\'');
    assert(text::starts_with(t, "now("@) ==> t.take(4)[0] == t[0]);
    assert(strip_repeated(t, "now("@) == t);
    assert(strip_repeated(call, "now("@) == t);
    assert(")"@[0] == ')');
    assert(!")"@.contains(q.last()));
    text::law_trim_end_takes_off_its_set(q, ")"@, ")"@);
    text::law_trim_takes_off_outer_space(none, q, none);
    assert(none + q + none =~= q);
    assert(q.subrange(1, q.len() - 1) =~= f);
}

/// A call and what follows it fall apart behind the closing bracket.
proof fn lemma_call_and_offset(call: Seq<char>, off: Seq<char>)
    requires
        call.len() > 0,
        text::find(call, ')') == call.len() - 1,
        off.len() > 0 ==> !text::is_space(off[0]) && !text::is_space(off.last()),
    ensures
        call_part(call + off) == call,
        offset_part(call + off) == off,
{
    let none = Seq::<char>::empty();
    let k = call.len() - 1;
    let whole = call + off;
    let head = call.take(k);
    text::lemma_find_from(call, ')', 0);
    assert(call[k] == ')');
    assert(!head.contains(')')) by {
        if head.contains(')') {
            let i = choose|i: int| 0 <= i < head.len() && head[i] == ')';
            assert(call[i] == ')');
        }
    }
    assert(whole =~= head + seq![')'] + off);
    text::law_find_is_the_first_place(head, ')', off);
    assert(whole.take(k + 1) =~= call);
    assert(whole.skip(k + 1) =~= off);
    text::law_trim_takes_off_outer_space(none, off, none);
    assert(none + off + none =~= off);
}

/// Law: a call for the time names its format between quotes, and behind it the
/// offset: none means now; otherwise the moment is shifted by as many seconds as
/// the offset says.
pub proof fn law_time_is_asked_for_by_format_and_offset(f: Seq<char>, d: Seq<char>, sign: char, unit: char)
    requires
        !f.contains(')'),
        chrono_format(f) is Ok,
        reading::all_digits(d),
        reading::run_value(d) <= i64::MAX,
        sign == '+' || sign == '-',
        is_unit(unit),
    ensures
        ({
            let call = "now('"@ + f + "')"@;
            let off = seq![sign] + (d + seq![unit]);
            let n = reading::run_value(d) as i64;
            &&& sys_demand(call) == DemandV::Time { call, offset: ""@, delta: 0, format: chrono_format(f)->Ok_0 }
            &&& offset_secs(sign, n, unit) matches Some(delta) ==> sys_demand(call + off) == DemandV::Time {
                call,
                offset: off,
                delta,
                format: chrono_format(f)->Ok_0,
            }
            &&& offset_secs(sign, n, unit) is None ==> sys_demand(call + off) is Fault
        }),
{
    reveal_strlit("");
    let none = Seq::<char>::empty();
    let call = "now('"@ + f + "')"@;
    let off = seq![sign] + (d + seq![unit]);
    lemma_now_call(f);
    lemma_call_and_offset(call, none);
    assert(call + none =~= call);
    assert(none =~= ""@);
    assert(off[0] == sign && off.last() == unit);
    lemma_call_and_offset(call, off);
    assert(off.len() > 0);
    assert(seq![unit] + none =~= seq![unit]);
    law_offset_is_sign_number_and_unit(d, unit, none);
}

/// Law: what a token stands for is what its answer tells: the value of the state
/// key, of the environment variable, or the moment in the format asked for, in
/// quotes; where there is no answer the template is refused.
pub proof fn law_tokens_stand_for_their_answers(key: Seq<char>, v: Seq<char>, e: AppErrorV, env: tokens::Env)
    ensures
        state_text(key, Ok(Some(v))) == Ok::<Seq<char>, AppErrorV>(v),
        state_text(key, Ok(None)) matches Err(x) && x is Template,
        state_text(key, Err(e)) == Err::<Seq<char>, AppErrorV>(e),
        strmap::at(env, key) matches Some(w) ==> env_text(key, env) == Ok::<Seq<char>, AppErrorV>(w),
        strmap::at(env, key) is None ==> (env_text(key, env) matches Err(x) && x is Template),
{
}

/// Law: a moment is written as a text literal of its text in the format.
pub proof fn law_moments_are_text_literals(call: Seq<char>, off: Seq<char>, format: Seq<char>, m: Option<Moment>)
    ensures
        time_text(call, off, format, m) matches Ok(s) ==> m is Some && (exists|t: Seq<char>|
            clock::chrono_text(m->Some_0.secs, m->Some_0.nanos, m->Some_0.offset, format) == Some(t) && #[trigger] reading::name_at(
                s + Seq::<char>::empty(),
                '\'',
            ) == Some((t, Seq::<char>::empty()))),
        m is None ==> (time_text(call, off, format, m) matches Err(e) && e is Template),
{
    let none = Seq::<char>::empty();
    if let Ok(s) = time_text(call, off, format, m) {
        let t = clock::chrono_text(m->Some_0.secs, m->Some_0.nanos, m->Some_0.offset, format)->Some_0;
        reading::law_quoted_name_reads_back(t, '\'', none);
        assert(reading::name_at(s + none, '\'') == Some((t, none)));
    }
}

/// Law: an offset without a number or without a unit is refused, with a sign or
/// without.
pub proof fn law_offset_needs_number_and_unit(d: Seq<char>, s: Seq<char>)
    requires
        reading::all_digits(d),
        reading::no_digit(s),
        s.len() > 0 ==> s[0] != '+' && s[0] != '-',
    ensures
        offset(d) is Err && offset(seq!['+'] + d) is Err && offset(seq!['-'] + d) is Err,
        offset(s) is Err && offset(seq!['+'] + s) is Err && offset(seq!['-'] + s) is Err,
{
    let none = Seq::<char>::empty();
    lemma_digits_len(d, none);
    assert(d + none =~= d);
    assert('0' <= d[0] <= '9');
    assert((seq!['+'] + d).skip(1) =~= d);
    assert((seq!['-'] + d).skip(1) =~= d);
    lemma_digits_len(none, s);
    assert(none + s =~= s);
    assert((seq!['+'] + s).skip(1) =~= s);
    assert((seq!['-'] + s).skip(1) =~= s);
}

} // verus!
