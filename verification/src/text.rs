//! Text primitives.
//!
//! Every contract of the crate speaks of text as `Seq<char>`. This module holds
//! the vocabulary for that (trimming, splitting, joining, quoting, numerals)
//! together with the executable functions that compute it.

use vstd::prelude::*;
use vstd::string::*;

verus! {

/// `String::push` of std: appends one character to the end of the string.
pub assume_specification[ std::string::String::push ](s: &mut std::string::String, c: char)
    ensures
        final(s)@ == old(s)@.push(c),
;

/// What [`debug_text`] returns for a text.
pub uninterp spec fn debug_form(s: Seq<char>) -> Seq<char>;

/// The `Debug` form of a `str` of std: the text in double quotes, with escapes.
/// It depends on the text alone.
#[verifier::external_body]
pub(crate) fn debug_text(s: &str) -> (out: String)
    ensures
        out@ == debug_form(s@),
{
    format!("{:?}", s)
}

// ---------------------------------------------------------------------------
// Characters
// ---------------------------------------------------------------------------

/// The Unicode `White_Space` property.
pub open spec fn is_space(c: char) -> bool {
    let u = c as u32;
    ||| 0x09 <= u <= 0x0D
    ||| u == 0x20
    ||| u == 0x85
    ||| u == 0xA0
    ||| u == 0x1680
    ||| 0x2000 <= u <= 0x200A
    ||| u == 0x2028
    ||| u == 0x2029
    ||| u == 0x202F
    ||| u == 0x205F
    ||| u == 0x3000
}

pub fn char_is_space(c: char) -> (out: bool)
    ensures
        out == is_space(c),
{
    let u: u32 = c as u32;
    (0x09 <= u && u <= 0x0D) || u == 0x20 || u == 0x85 || u == 0xA0 || u == 0x1680 || (0x2000 <= u
        && u <= 0x200A) || u == 0x2028 || u == 0x2029 || u == 0x202F || u == 0x205F || u == 0x3000
}

/// ASCII digit.
pub open spec fn is_digit(c: char) -> bool {
    '0' <= c <= '9'
}

/// The value of an ASCII digit.
pub open spec fn digit_value(c: char) -> int {
    c as int - '0' as int
}

pub fn char_is_digit(c: char) -> (out: bool)
    ensures
        out == is_digit(c),
{
    '0' <= c && c <= '9'
}

/// ASCII lower case of one character.
pub open spec fn lower_char(c: char) -> char {
    if 'A' <= c <= 'Z' {
        (c as u32 + 32) as char
    } else {
        c
    }
}

pub fn char_lower(c: char) -> (out: char)
    ensures
        out == lower_char(c),
{
    if 'A' <= c && c <= 'Z' {
        ((c as u8) + 32) as char
    } else {
        c
    }
}

/// ASCII lower case of a text.
pub open spec fn lower(s: Seq<char>) -> Seq<char> {
    s.map_values(|c: char| lower_char(c))
}

pub fn to_lower(s: &str) -> (out: String)
    ensures
        out@ == lower(s@),
{
    let v = chars_of(s);
    let mut out = String::new();
    let mut i: usize = 0;
    while i < v.len()
        invariant
            i <= v.len(),
            v@ == s@,
            out@ == lower(s@).take(i as int),
        decreases v.len() - i,
    {
        out.push(char_lower(v[i]));
        assert(lower(s@).take(i + 1) =~= lower(s@).take(i as int).push(lower_char(s@[i as int])));
        i += 1;
    }
    assert(lower(s@).take(i as int) =~= lower(s@));
    out
}

// ---------------------------------------------------------------------------
// Conversions
// ---------------------------------------------------------------------------

pub fn chars_of(s: &str) -> (out: Vec<char>)
    ensures
        out@ == s@,
{
    let mut out: Vec<char> = Vec::new();
    for c in it: s.chars()
        invariant
            out@ == it.seq().take(it.index() as int),
            it.seq() == s@,
    {
        out.push(c);
        assert(it.seq().take(it.index() as int).push(c) =~= it.seq().take(it.index() + 1));
    }
    assert(s@.take(s@.len() as int) =~= s@);
    out
}

/// The text of `v[from..to]`.
pub fn string_of(v: &Vec<char>, from: usize, to: usize) -> (out: String)
    requires
        from <= to <= v@.len(),
    ensures
        out@ == v@.subrange(from as int, to as int),
{
    let mut out = String::new();
    let mut i: usize = from;
    while i < to
        invariant
            from <= i <= to <= v@.len(),
            out@ == v@.subrange(from as int, i as int),
        decreases to - i,
    {
        out.push(v[i]);
        assert(v@.subrange(from as int, i + 1) =~= v@.subrange(from as int, i as int).push(v@[i as int]));
        i += 1;
    }
    out
}

pub fn copy(s: &str) -> (out: String)
    ensures
        out@ == s@,
{
    s.to_owned()
}

pub fn same(a: &str, b: &str) -> (out: bool)
    ensures
        out == (a@ == b@),
{
    let x = chars_of(a);
    let y = chars_of(b);
    if x.len() != y.len() {
        return false;
    }
    let mut i: usize = 0;
    while i < x.len()
        invariant
            i <= x@.len(),
            x@.len() == y@.len(),
            x@ == a@,
            y@ == b@,
            forall|j: int| 0 <= j < i ==> x@[j] == y@[j],
        decreases x.len() - i,
    {
        if x[i] != y[i] {
            assert(a@[i as int] != b@[i as int]);
            return false;
        }
        i += 1;
    }
    assert(a@ =~= b@);
    true
}

pub fn cat2(a: &str, b: &str) -> (out: String)
    ensures
        out@ == a@ + b@,
{
    let mut s = a.to_owned();
    s.append(b);
    s
}

pub fn cat3(a: &str, b: &str, c: &str) -> (out: String)
    ensures
        out@ == a@ + b@ + c@,
{
    let mut s = cat2(a, b);
    s.append(c);
    s
}

pub fn cat4(a: &str, b: &str, c: &str, d: &str) -> (out: String)
    ensures
        out@ == a@ + b@ + c@ + d@,
{
    let mut s = cat3(a, b, c);
    s.append(d);
    s
}

pub fn cat5(a: &str, b: &str, c: &str, d: &str, e: &str) -> (out: String)
    ensures
        out@ == a@ + b@ + c@ + d@ + e@,
{
    let mut s = cat4(a, b, c, d);
    s.append(e);
    s
}

// ---------------------------------------------------------------------------
// Order
// ---------------------------------------------------------------------------

/// Lexicographic order by code point, which is the order of `str` in std.
pub open spec fn less(a: Seq<char>, b: Seq<char>) -> bool
    decreases a.len(),
{
    if b.len() == 0 {
        false
    } else if a.len() == 0 {
        true
    } else if a[0] == b[0] {
        less(a.drop_first(), b.drop_first())
    } else {
        a[0] < b[0]
    }
}

pub proof fn lemma_less_irreflexive(a: Seq<char>)
    ensures
        !less(a, a),
    decreases a.len(),
{
    if a.len() > 0 {
        lemma_less_irreflexive(a.drop_first());
    }
}

pub proof fn lemma_less_transitive(a: Seq<char>, b: Seq<char>, c: Seq<char>)
    requires
        less(a, b),
        less(b, c),
    ensures
        less(a, c),
    decreases a.len(),
{
    if a.len() > 0 && a[0] == b[0] && b[0] == c[0] {
        lemma_less_transitive(a.drop_first(), b.drop_first(), c.drop_first());
    }
}

pub proof fn lemma_less_total(a: Seq<char>, b: Seq<char>)
    ensures
        less(a, b) || less(b, a) || a == b,
    decreases a.len(),
{
    if a.len() > 0 && b.len() > 0 && a[0] == b[0] {
        lemma_less_total(a.drop_first(), b.drop_first());
        if a.drop_first() == b.drop_first() {
            assert(a =~= seq![a[0]] + a.drop_first());
            assert(b =~= seq![b[0]] + b.drop_first());
        }
    } else if a.len() == 0 && b.len() == 0 {
        assert(a =~= b);
    }
}

pub fn is_less(a: &str, b: &str) -> (out: bool)
    ensures
        out == less(a@, b@),
{
    let x = chars_of(a);
    let y = chars_of(b);
    let mut i: usize = 0;
    assert(a@.skip(0) =~= a@);
    assert(b@.skip(0) =~= b@);
    while i < x.len() && i < y.len()
        invariant
            i <= x@.len(),
            i <= y@.len(),
            x@ == a@,
            y@ == b@,
            less(a@, b@) == less(a@.skip(i as int), b@.skip(i as int)),
        decreases x.len() - i,
    {
        assert(a@.skip(i as int)[0] == a@[i as int]);
        assert(b@.skip(i as int)[0] == b@[i as int]);
        if x[i] != y[i] {
            return x[i] < y[i];
        }
        assert(a@.skip(i as int).drop_first() =~= a@.skip(i + 1));
        assert(b@.skip(i as int).drop_first() =~= b@.skip(i + 1));
        i += 1;
    }
    i < y.len()
}

// ---------------------------------------------------------------------------
// Trimming
// ---------------------------------------------------------------------------

pub open spec fn trim_start(s: Seq<char>) -> Seq<char>
    decreases s.len(),
{
    if s.len() > 0 && is_space(s[0]) {
        trim_start(s.drop_first())
    } else {
        s
    }
}

pub open spec fn trim_end(s: Seq<char>) -> Seq<char>
    decreases s.len(),
{
    if s.len() > 0 && is_space(s.last()) {
        trim_end(s.drop_last())
    } else {
        s
    }
}

/// Without leading and trailing white space.
pub open spec fn trim(s: Seq<char>) -> Seq<char> {
    trim_end(trim_start(s))
}

pub fn trimmed(s: &str) -> (out: String)
    ensures
        out@ == trim(s@),
{
    let v = chars_of(s);
    let mut i: usize = 0;
    assert(s@.skip(0) =~= s@);
    while i < v.len() && char_is_space(v[i])
        invariant
            i <= v@.len(),
            v@ == s@,
            trim_start(s@) == trim_start(s@.skip(i as int)),
        decreases v.len() - i,
    {
        assert(s@.skip(i as int)[0] == s@[i as int]);
        assert(s@.skip(i as int).drop_first() =~= s@.skip(i + 1));
        i += 1;
    }
    if i < v.len() {
        assert(s@.skip(i as int)[0] == s@[i as int]);
    }
    assert(trim_start(s@) == s@.skip(i as int));
    let mut j: usize = v.len();
    assert(s@.subrange(i as int, j as int) =~= s@.skip(i as int));
    while i < j && char_is_space(v[j - 1])
        invariant
            i <= j <= v@.len(),
            v@ == s@,
            trim(s@) == trim_end(s@.subrange(i as int, j as int)),
        decreases j - i,
    {
        assert(s@.subrange(i as int, j as int).last() == s@[j - 1]);
        assert(s@.subrange(i as int, j as int).drop_last() =~= s@.subrange(i as int, j - 1));
        j -= 1;
    }
    if i < j {
        assert(s@.subrange(i as int, j as int).last() == s@[j - 1]);
    }
    string_of(&v, i, j)
}

/// Without the trailing characters that occur in `set`.
pub open spec fn trim_end_any(s: Seq<char>, set: Seq<char>) -> Seq<char>
    decreases s.len(),
{
    if s.len() > 0 && set.contains(s.last()) {
        trim_end_any(s.drop_last(), set)
    } else {
        s
    }
}

/// Without the leading characters that occur in `set`.
pub open spec fn trim_start_any(s: Seq<char>, set: Seq<char>) -> Seq<char>
    decreases s.len(),
{
    if s.len() > 0 && set.contains(s[0]) {
        trim_start_any(s.drop_first(), set)
    } else {
        s
    }
}

fn holds_char(set: &Vec<char>, c: char) -> (out: bool)
    ensures
        out == set@.contains(c),
{
    let mut i: usize = 0;
    while i < set.len()
        invariant
            i <= set@.len(),
            forall|j: int| 0 <= j < i ==> set@[j] != c,
        decreases set.len() - i,
    {
        if set[i] == c {
            return true;
        }
        i += 1;
    }
    false
}

pub fn trimmed_end_any(s: &str, set: &str) -> (out: String)
    ensures
        out@ == trim_end_any(s@, set@),
{
    let v = chars_of(s);
    let w = chars_of(set);
    let mut j: usize = v.len();
    assert(s@.take(j as int) =~= s@);
    while 0 < j && holds_char(&w, v[j - 1])
        invariant
            j <= v@.len(),
            v@ == s@,
            w@ == set@,
            trim_end_any(s@, set@) == trim_end_any(s@.take(j as int), set@),
        decreases j,
    {
        assert(s@.take(j as int).last() == s@[j - 1]);
        assert(s@.take(j as int).drop_last() =~= s@.take(j - 1));
        j -= 1;
    }
    if 0 < j {
        assert(s@.take(j as int).last() == s@[j - 1]);
    }
    let out = string_of(&v, 0, j);
    assert(out@ =~= s@.take(j as int));
    out
}

pub fn trimmed_start_any(s: &str, set: &str) -> (out: String)
    ensures
        out@ == trim_start_any(s@, set@),
{
    let v = chars_of(s);
    let w = chars_of(set);
    let mut i: usize = 0;
    assert(s@.skip(0) =~= s@);
    while i < v.len() && holds_char(&w, v[i])
        invariant
            i <= v@.len(),
            v@ == s@,
            w@ == set@,
            trim_start_any(s@, set@) == trim_start_any(s@.skip(i as int), set@),
        decreases v.len() - i,
    {
        assert(s@.skip(i as int)[0] == s@[i as int]);
        assert(s@.skip(i as int).drop_first() =~= s@.skip(i + 1));
        i += 1;
    }
    if i < v.len() {
        assert(s@.skip(i as int)[0] == s@[i as int]);
    }
    let out = string_of(&v, i, v.len());
    assert(out@ =~= s@.skip(i as int));
    out
}

// ---------------------------------------------------------------------------
// Searching
// ---------------------------------------------------------------------------

/// The first position at or after `i` that holds `c`; the length where there is none.
pub open spec fn find_from(s: Seq<char>, c: char, i: int) -> int
    decreases s.len() - i,
{
    if i < 0 || i >= s.len() {
        s.len() as int
    } else if s[i] == c {
        i
    } else {
        find_from(s, c, i + 1)
    }
}

/// The first position that holds `c`; the length where there is none.
pub open spec fn find(s: Seq<char>, c: char) -> int {
    find_from(s, c, 0)
}

pub proof fn lemma_find_from(s: Seq<char>, c: char, i: int)
    requires
        0 <= i <= s.len(),
    ensures
        i <= find_from(s, c, i) <= s.len(),
        find_from(s, c, i) < s.len() ==> s[find_from(s, c, i)] == c,
        forall|j: int| i <= j < find_from(s, c, i) ==> s[j] != c,
    decreases s.len() - i,
{
    if i < s.len() && s[i] != c {
        lemma_find_from(s, c, i + 1);
    }
}

pub fn position(v: &Vec<char>, c: char, from: usize) -> (out: usize)
    requires
        from <= v@.len(),
    ensures
        out == find_from(v@, c, from as int),
        from <= out <= v@.len(),
{
    let mut i: usize = from;
    while i < v.len() && v[i] != c
        invariant
            from <= i <= v@.len(),
            find_from(v@, c, from as int) == find_from(v@, c, i as int),
        decreases v.len() - i,
    {
        i += 1;
    }
    i
}

/// `s` without the copies of `c` around it.
pub open spec fn trim_char(s: Seq<char>, c: char) -> Seq<char> {
    trim_end_any(trim_start_any(s, seq![c]), seq![c])
}

/// Whether `p` is a prefix of `s`.
pub open spec fn starts_with(s: Seq<char>, p: Seq<char>) -> bool {
    p.len() <= s.len() && s.take(p.len() as int) == p
}

/// Whether `p` is a suffix of `s`.
pub open spec fn ends_with(s: Seq<char>, p: Seq<char>) -> bool {
    p.len() <= s.len() && s.skip(s.len() - p.len()) == p
}

/// Whether `p` occurs in `v` at position `at`.
pub fn occurs_at(v: &Vec<char>, p: &Vec<char>, at: usize) -> (out: bool)
    requires
        at <= v@.len(),
    ensures
        out == (at + p@.len() <= v@.len() && v@.subrange(at as int, at + p@.len()) == p@),
{
    if p.len() > v.len() - at {
        return false;
    }
    let mut i: usize = 0;
    while i < p.len()
        invariant
            i <= p@.len(),
            at + p@.len() <= v.len(),
            forall|j: int| 0 <= j < i ==> v@[at + j] == p@[j],
        decreases p.len() - i,
    {
        if v[at + i] != p[i] {
            assert(v@.subrange(at as int, at + p@.len())[i as int] != p@[i as int]);
            return false;
        }
        i += 1;
    }
    assert(v@.subrange(at as int, at + p@.len()) =~= p@);
    true
}

pub fn has_prefix(s: &str, p: &str) -> (out: bool)
    ensures
        out == starts_with(s@, p@),
{
    let v = chars_of(s);
    let w = chars_of(p);
    let out = occurs_at(&v, &w, 0);
    assert(p@.len() <= s@.len() ==> s@.take(p@.len() as int) =~= s@.subrange(0, p@.len() as int));
    out
}

pub fn has_suffix(s: &str, p: &str) -> (out: bool)
    ensures
        out == ends_with(s@, p@),
{
    let v = chars_of(s);
    let w = chars_of(p);
    if w.len() > v.len() {
        return false;
    }
    let at: usize = v.len() - w.len();
    assert(s@.skip(at as int) =~= s@.subrange(at as int, at + p@.len()));
    occurs_at(&v, &w, at)
}

/// Whether `p` occurs somewhere in `s`.
pub open spec fn contains(s: Seq<char>, p: Seq<char>) -> bool {
    exists|i: int| 0 <= i && i + p.len() <= s.len() && #[trigger] s.subrange(i, i + p.len()) == p
}

pub fn has_part(s: &str, p: &str) -> (out: bool)
    ensures
        out == contains(s@, p@),
{
    let v = chars_of(s);
    let w = chars_of(p);
    if w.len() > v.len() {
        return false;
    }
    let mut i: usize = 0;
    while i <= v.len() - w.len()
        invariant
            i <= v@.len() - w@.len() + 1,
            v@ == s@,
            w@ == p@,
            w@.len() <= v@.len(),
            forall|j: int| 0 <= j < i ==> #[trigger] s@.subrange(j, j + p@.len()) != p@,
        decreases v.len() - w.len() + 1 - i,
    {
        if occurs_at(&v, &w, i) {
            return true;
        }
        if i == v.len() - w.len() {
            return false;
        }
        i += 1;
    }
    false
}

/// `s` without the prefix `p`, where it has it.
pub fn without_prefix(s: &str, p: &str) -> (out: Option<String>)
    ensures
        out is Some == starts_with(s@, p@),
        out matches Some(rest) ==> rest@ == s@.skip(p@.len() as int),
{
    if has_prefix(s, p) {
        let v = chars_of(s);
        let w = chars_of(p);
        let rest = string_of(&v, w.len(), v.len());
        assert(rest@ =~= s@.skip(p@.len() as int));
        Some(rest)
    } else {
        None
    }
}

// ---------------------------------------------------------------------------
// Splitting and joining
// ---------------------------------------------------------------------------

/// The pieces between the separators; always at least one piece.
pub open spec fn split(s: Seq<char>, sep: char) -> Seq<Seq<char>>
    decreases s.len(),
{
    let at = find(s, sep);
    if 0 <= at < s.len() {
        seq![s.take(at)] + split(s.skip(at + 1), sep)
    } else {
        seq![s]
    }
}

/// The views of a list of strings.
pub open spec fn views(v: Seq<String>) -> Seq<Seq<char>> {
    crate::views::list(v)
}

pub fn copy_all(v: &Vec<String>) -> (out: Vec<String>)
    ensures
        views(out@) == views(v@),
{
    let ghost want = views(v@);
    let mut out: Vec<String> = Vec::new();
    let mut i: usize = 0;
    while i < v.len()
        invariant
            i <= v.len(),
            want == views(v@),
            views(out@) == want.take(i as int),
        decreases v.len() - i,
    {
        let t = v[i].clone();
        proof {
            crate::views::lemma_list_push(out@, t);
        }
        out.push(t);
        assert(want.take(i + 1) =~= want.take(i as int).push(want[i as int]));
        i += 1;
    }
    assert(want.take(i as int) =~= want);
    out
}

pub fn copy_opt(s: &Option<String>) -> (out: Option<String>)
    ensures
        crate::views::opt(out) == crate::views::opt(*s),
{
    match s {
        Some(t) => Some(t.clone()),
        None => None,
    }
}

pub fn split_on(s: &str, sep: char) -> (out: Vec<String>)
    ensures
        views(out@) == split(s@, sep),
{
    let v = chars_of(s);
    let mut out: Vec<String> = Vec::new();
    let mut from: usize = 0;
    assert(s@.skip(0) =~= s@);
    assert(views(out@) =~= Seq::<Seq<char>>::empty());
    assert(views(out@) + split(s@, sep) =~= split(s@, sep));
    loop
        invariant_except_break
            from <= v@.len(),
            v@ == s@,
            views(out@) + split(s@.skip(from as int), sep) == split(s@, sep),
        ensures
            views(out@) == split(s@, sep),
        decreases v.len() - from,
    {
        let ghost rest = s@.skip(from as int);
        let at = position(&v, sep, from);
        proof {
            lemma_find_skip(s@, sep, from as int);
            lemma_find_from(rest, sep, 0);
        }
        let piece = string_of(&v, from, at);
        let ghost before = views(out@);
        out.push(piece);
        assert(views(out@) =~= before.push(piece@));
        if at < v.len() {
            assert(piece@ =~= rest.take(at - from));
            assert(rest.skip(at - from + 1) =~= s@.skip(at + 1));
            assert(before + split(rest, sep) =~= views(out@) + split(s@.skip(at + 1), sep));
            from = at + 1;
        } else {
            assert(piece@ =~= rest);
            assert(before + seq![rest] =~= views(out@));
            break;
        }
    }
    out
}

pub proof fn lemma_find_skip(s: Seq<char>, c: char, i: int)
    requires
        0 <= i <= s.len(),
    ensures
        find_from(s, c, i) == i + find(s.skip(i), c),
{
    lemma_find_shift(s, c, i, 0);
}

proof fn lemma_find_shift(s: Seq<char>, c: char, i: int, k: int)
    requires
        0 <= i <= s.len(),
        0 <= k,
        i + k <= s.len(),
    ensures
        find_from(s, c, i + k) == i + find_from(s.skip(i), c, k),
    decreases s.len() - i - k,
{
    if i + k < s.len() {
        assert(s.skip(i)[k] == s[i + k]);
        if s[i + k] != c {
            lemma_find_shift(s, c, i, k + 1);
        }
    }
}

/// The pieces with `sep` between each two of them.
pub open spec fn join(parts: Seq<Seq<char>>, sep: Seq<char>) -> Seq<char>
    decreases parts.len(),
{
    if parts.len() == 0 {
        Seq::empty()
    } else if parts.len() == 1 {
        parts[0]
    } else {
        join(parts.drop_last(), sep) + sep + parts.last()
    }
}

proof fn lemma_split_last(a: Seq<char>, b: Seq<char>, sep: char)
    requires
        !b.contains(sep),
    ensures
        split(a + seq![sep] + b, sep) == split(a, sep).push(b),
    decreases a.len(),
{
    let s = a + seq![sep] + b;
    let at = find(a, sep);
    lemma_find_from(a, sep, 0);
    lemma_find_from(s, sep, 0);
    let cut = find(s, sep);
    assert(s[a.len() as int] == sep);
    assert(forall|j: int| 0 <= j < a.len() ==> s[j] == a[j]);
    if at < a.len() {
        assert(s[at] == sep);
        assert(cut == at);
        assert(s.skip(at + 1) =~= a.skip(at + 1) + seq![sep] + b);
        assert(s.take(at) =~= a.take(at));
        lemma_split_last(a.skip(at + 1), b, sep);
        assert(split(s, sep) =~= split(a, sep).push(b));
    } else {
        if cut < a.len() {
            assert(a[cut] == sep);
        }
        assert(cut == a.len());
        assert(s.take(cut) =~= a);
        assert(s.skip(cut + 1) =~= b);
        lemma_split_none(b, sep);
        assert(split(s, sep) =~= seq![a] + seq![b]);
        assert(split(a, sep).push(b) =~= seq![a] + seq![b]);
    }
}

proof fn lemma_split_none(b: Seq<char>, sep: char)
    requires
        !b.contains(sep),
    ensures
        split(b, sep) == seq![b],
{
    lemma_find_from(b, sep, 0);
    if find(b, sep) < b.len() {
        assert(b.contains(b[find(b, sep)]));
    }
}

/// Law: a text with a separator in it splits into what stands before and what
/// stands behind it, each split by itself.
pub proof fn law_split_at_a_separator(a: Seq<char>, b: Seq<char>, sep: char)
    ensures
        split(a + seq![sep] + b, sep) == split(a, sep) + split(b, sep),
    decreases a.len(),
{
    let s = a + seq![sep] + b;
    let at = find(a, sep);
    lemma_find_from(a, sep, 0);
    lemma_find_from(s, sep, 0);
    let cut = find(s, sep);
    assert(s[a.len() as int] == sep);
    assert(forall|j: int| 0 <= j < a.len() ==> s[j] == a[j]);
    if at < a.len() {
        assert(s[at] == sep);
        assert(cut == at);
        assert(s.skip(at + 1) =~= a.skip(at + 1) + seq![sep] + b);
        assert(s.take(at) =~= a.take(at));
        law_split_at_a_separator(a.skip(at + 1), b, sep);
        assert(split(s, sep) =~= split(a, sep) + split(b, sep));
    } else {
        if cut < a.len() {
            assert(a[cut] == sep);
        }
        assert(cut == a.len());
        assert(s.take(cut) =~= a);
        assert(s.skip(cut + 1) =~= b);
    }
}

/// Law: a text without the separator splits into itself alone.
pub proof fn law_split_without_a_separator(a: Seq<char>, sep: char)
    requires
        !a.contains(sep),
    ensures
        split(a, sep) == seq![a],
{
    lemma_split_none(a, sep);
}

/// Law: texts that are joined by a character that none of them holds come back
/// when the whole is split at it.
pub proof fn law_joined_texts_split_again(parts: Seq<Seq<char>>, sep: char)
    requires
        parts.len() > 0,
        forall|i: int| 0 <= i < parts.len() ==> !(#[trigger] parts[i]).contains(sep),
    ensures
        split(join(parts, seq![sep]), sep) == parts,
    decreases parts.len(),
{
    if parts.len() == 1 {
        lemma_split_none(parts[0], sep);
        assert(seq![parts[0]] =~= parts);
    } else {
        let head = parts.drop_last();
        assert forall|i: int| 0 <= i < head.len() implies !(#[trigger] head[i]).contains(sep) by {
            assert(!parts[i].contains(sep));
        }
        law_joined_texts_split_again(head, sep);
        assert(!parts[parts.len() - 1].contains(sep));
        lemma_split_last(join(head, seq![sep]), parts.last(), sep);
        assert(head.push(parts.last()) =~= parts);
    }
}

pub fn joined(parts: &Vec<String>, sep: &str) -> (out: String)
    ensures
        out@ == join(views(parts@), sep@),
{
    let mut out = String::new();
    let mut i: usize = 0;
    let ghost all = views(parts@);
    assert(all.take(0) =~= Seq::<Seq<char>>::empty());
    while i < parts.len()
        invariant
            i <= parts@.len(),
            all == views(parts@),
            all.len() == parts@.len(),
            out@ == join(all.take(i as int), sep@),
        decreases parts.len() - i,
    {
        if i > 0 {
            out.append(sep);
        }
        out.append(parts[i].as_str());
        assert(all.take(i + 1).drop_last() =~= all.take(i as int));
        assert(all.take(i + 1).last() == parts@[i as int]@);
        i += 1;
    }
    assert(all.take(i as int) =~= all);
    out
}

/// The maximal pieces without white space.
pub open spec fn words(s: Seq<char>) -> Seq<Seq<char>>
    decreases s.len(),
{
    let t = trim_start(s);
    if t.len() == 0 || t.len() > s.len() {
        Seq::empty()
    } else {
        let n = word_len(t);
        if n <= 0 || n > t.len() {
            Seq::empty()
        } else {
            seq![t.take(n)] + words(t.skip(n))
        }
    }
}

/// The number of leading characters that are not white space.
pub open spec fn word_len(s: Seq<char>) -> int
    decreases s.len(),
{
    if s.len() == 0 || is_space(s[0]) {
        0
    } else {
        1 + word_len(s.drop_first())
    }
}

proof fn lemma_trim_start_len(s: Seq<char>)
    ensures
        trim_start(s).len() <= s.len(),
        trim_start(s).len() > 0 ==> !is_space(trim_start(s)[0]),
    decreases s.len(),
{
    if s.len() > 0 && is_space(s[0]) {
        lemma_trim_start_len(s.drop_first());
    }
}

proof fn lemma_word_len(s: Seq<char>)
    ensures
        0 <= word_len(s) <= s.len(),
    decreases s.len(),
{
    if s.len() > 0 && !is_space(s[0]) {
        lemma_word_len(s.drop_first());
    }
}

pub fn words_of(s: &str) -> (out: Vec<String>)
    ensures
        views(out@) == words(s@),
{
    let v = chars_of(s);
    let mut out: Vec<String> = Vec::new();
    let mut i: usize = 0;
    assert(s@.skip(0) =~= s@);
    assert(views(out@) =~= Seq::<Seq<char>>::empty());
    assert(views(out@) + words(s@) =~= words(s@));
    loop
        invariant_except_break
            i <= v@.len(),
            v@ == s@,
            views(out@) + words(s@.skip(i as int)) == words(s@),
        ensures
            views(out@) == words(s@),
        decreases v.len() - i,
    {
        let ghost rest = s@.skip(i as int);
        let start = i;
        while i < v.len() && char_is_space(v[i])
            invariant
                start <= i <= v@.len(),
                v@ == s@,
                rest == s@.skip(start as int),
                trim_start(rest) == trim_start(s@.skip(i as int)),
            decreases v.len() - i,
        {
            assert(s@.skip(i as int)[0] == s@[i as int]);
            assert(s@.skip(i as int).drop_first() =~= s@.skip(i + 1));
            i += 1;
        }
        let ghost t = s@.skip(i as int);
        if i < v.len() {
            assert(t[0] == s@[i as int]);
        }
        assert(trim_start(rest) == t);
        proof {
            lemma_trim_start_len(rest);
            lemma_word_len(t);
        }
        if i == v.len() {
            assert(words(rest) =~= Seq::<Seq<char>>::empty());
            assert(views(out@) + words(rest) =~= views(out@));
            break;
        }
        let from = i;
        assert(t.skip(0) =~= t);
        while i < v.len() && !char_is_space(v[i])
            invariant
                from <= i <= v@.len(),
                v@ == s@,
                t == s@.skip(from as int),
                word_len(t) == (i - from) + word_len(s@.skip(i as int)),
            decreases v.len() - i,
        {
            assert(s@.skip(i as int)[0] == s@[i as int]);
            assert(s@.skip(i as int).drop_first() =~= s@.skip(i + 1));
            i += 1;
        }
        if i < v.len() {
            assert(s@.skip(i as int)[0] == s@[i as int]);
        }
        assert(word_len(t) == i - from);
        let word = string_of(&v, from, i);
        assert(word@ =~= t.take(i - from));
        let ghost before = views(out@);
        out.push(word);
        assert(views(out@) =~= before.push(word@));
        assert(t.skip(i - from) =~= s@.skip(i as int));
        assert(i > from) by {
            assert(t.len() > 0 && !is_space(t[0]));
            lemma_word_len(t.drop_first());
        }
        assert(before + words(rest) =~= views(out@) + words(s@.skip(i as int)));
    }
    out
}

// ---------------------------------------------------------------------------
// Doubling a quote character
// ---------------------------------------------------------------------------

/// `s` with every `q` written twice.
pub open spec fn double(s: Seq<char>, q: char) -> Seq<char>
    decreases s.len(),
{
    if s.len() == 0 {
        Seq::empty()
    } else if s.last() == q {
        double(s.drop_last(), q).push(q).push(q)
    } else {
        double(s.drop_last(), q).push(s.last())
    }
}

/// `s` with every `q` written twice, between two `q`.
pub open spec fn quoted(s: Seq<char>, q: char) -> Seq<char> {
    seq![q] + double(s, q) + seq![q]
}

pub fn doubled(s: &str, q: char) -> (out: String)
    ensures
        out@ == double(s@, q),
{
    let v = chars_of(s);
    let mut out = String::new();
    let mut i: usize = 0;
    assert(s@.take(0) =~= Seq::<char>::empty());
    while i < v.len()
        invariant
            i <= v@.len(),
            v@ == s@,
            out@ == double(s@.take(i as int), q),
        decreases v.len() - i,
    {
        let c = v[i];
        if c == q {
            out.push(q);
        }
        out.push(c);
        assert(s@.take(i + 1).drop_last() =~= s@.take(i as int));
        i += 1;
    }
    assert(s@.take(i as int) =~= s@);
    out
}

pub fn quote(s: &str, q: char) -> (out: String)
    ensures
        out@ == quoted(s@, q),
{
    let d = doubled(s, q);
    let mut out = String::new();
    out.push(q);
    out.append(d.as_str());
    out.push(q);
    assert(out@ =~= quoted(s@, q));
    out
}

/// Reading a doubled text back: each `qq` stands for one `q`.
pub open spec fn undouble(s: Seq<char>, q: char) -> Seq<char>
    decreases s.len(),
{
    if s.len() == 0 {
        Seq::empty()
    } else if s.last() == q && s.len() >= 2 {
        undouble(s.take(s.len() - 2), q).push(q)
    } else {
        undouble(s.drop_last(), q).push(s.last())
    }
}

/// Law: reading a doubled text back gives the text, so doubling loses nothing
/// and two different names never quote to the same text.
pub proof fn law_double_reads_back(s: Seq<char>, q: char)
    ensures
        undouble(double(s, q), q) == s,
    decreases s.len(),
{
    if s.len() > 0 {
        let d = double(s.drop_last(), q);
        law_double_reads_back(s.drop_last(), q);
        assert(s =~= s.drop_last().push(s.last()));
        if s.last() == q {
            assert(d.push(q).push(q).take(d.len() as int) =~= d);
        } else {
            assert(d.push(s.last()).drop_last() =~= d);
        }
    }
}

/// Law: the quoted forms of two texts are equal only if the texts are.
pub proof fn law_quote_injective(a: Seq<char>, b: Seq<char>, q: char)
    requires
        quoted(a, q) == quoted(b, q),
    ensures
        a == b,
{
    let x = quoted(a, q);
    let y = quoted(b, q);
    assert(double(a, q) =~= x.subrange(1, x.len() - 1));
    assert(double(b, q) =~= y.subrange(1, y.len() - 1));
    law_double_reads_back(a, q);
    law_double_reads_back(b, q);
}

// ---------------------------------------------------------------------------
// Numerals
// ---------------------------------------------------------------------------

pub open spec fn digit_char(d: int) -> char {
    ('0' as int + d) as char
}

/// The decimal numeral of `n`.
pub open spec fn dec(n: nat) -> Seq<char>
    decreases n,
{
    if n < 10 {
        seq![digit_char(n as int)]
    } else {
        dec(n / 10).push(digit_char((n % 10) as int))
    }
}

/// The decimal numeral of `i`, with a leading minus sign where it is negative.
pub open spec fn dec_int(i: int) -> Seq<char> {
    if i < 0 {
        seq!['-'] + dec((-i) as nat)
    } else {
        dec(i as nat)
    }
}

/// The decimal numeral of `n`, filled up with leading zeros to `width`.
pub open spec fn dec_padded(n: nat, width: nat) -> Seq<char> {
    if dec(n).len() >= width {
        dec(n)
    } else {
        Seq::new((width - dec(n).len()) as nat, |i: int| '0') + dec(n)
    }
}

fn digit_of(d: u64) -> (out: char)
    requires
        d < 10,
    ensures
        out == digit_char(d as int),
{
    (48u8 + d as u8) as char
}

pub fn dec_text(n: u64) -> (out: String)
    ensures
        out@ == dec(n as nat),
    decreases n,
{
    if n < 10 {
        let mut s = String::new();
        s.push(digit_of(n));
        assert(s@ =~= dec(n as nat));
        s
    } else {
        let mut s = dec_text(n / 10);
        s.push(digit_of(n % 10));
        s
    }
}

pub fn int_text(i: i64) -> (out: String)
    ensures
        out@ == dec_int(i as int),
{
    if i == i64::MIN {
        let d = dec_text(9223372036854775808u64);
        let out = cat2("-", d.as_str());
        proof {
            reveal_strlit("-");
            assert("-"@ =~= seq!['-']);
        }
        out
    } else if i < 0 {
        let d = dec_text((-i) as u64);
        let out = cat2("-", d.as_str());
        proof {
            reveal_strlit("-");
            assert("-"@ =~= seq!['-']);
        }
        out
    } else {
        dec_text(i as u64)
    }
}

pub proof fn lemma_dec_len(n: nat)
    ensures
        dec(n).len() >= 1,
    decreases n,
{
    if n >= 10 {
        lemma_dec_len(n / 10);
    }
}

pub fn padded_text(n: u64, width: usize) -> (out: String)
    ensures
        out@ == dec_padded(n as nat, width as nat),
{
    let d = dec_text(n);
    let v = chars_of(d.as_str());
    if v.len() >= width {
        return d;
    }
    let gap: usize = width - v.len();
    let mut out = String::new();
    let mut i: usize = 0;
    while i < gap
        invariant
            i <= gap,
            out@ == Seq::new(i as nat, |k: int| '0'),
        decreases gap - i,
    {
        out.push('0');
        assert(out@ =~= Seq::new((i + 1) as nat, |k: int| '0'));
        i += 1;
    }
    out.append(d.as_str());
    out
}

/// Why a text is not the numeral of a machine integer.
#[derive(Clone, Copy, PartialEq, Eq, Structural, Debug)]
pub enum IntFault {
    Empty,
    Invalid,
    TooLarge,
    TooSmall,
}

impl IntFault {
    /// The wording of std's `ParseIntError`.
    pub open spec fn words(self) -> Seq<char> {
        match self {
            IntFault::Empty => "cannot parse integer from empty string"@,
            IntFault::Invalid => "invalid digit found in string"@,
            IntFault::TooLarge => "number too large to fit in target type"@,
            IntFault::TooSmall => "number too small to fit in target type"@,
        }
    }

    pub fn text(self) -> (out: &'static str)
        ensures
            out@ == self.words(),
    {
        match self {
            IntFault::Empty => "cannot parse integer from empty string",
            IntFault::Invalid => "invalid digit found in string",
            IntFault::TooLarge => "number too large to fit in target type",
            IntFault::TooSmall => "number too small to fit in target type",
        }
    }
}

/// The digits `s` read from the left onto `acc`; the first fault counts.
pub open spec fn read_digits(s: Seq<char>, acc: int, neg: bool) -> Result<int, IntFault>
    decreases s.len(),
{
    if s.len() == 0 {
        Ok(acc)
    } else if !is_digit(s[0]) {
        Err(IntFault::Invalid)
    } else {
        let next = if neg {
            acc * 10 - digit_value(s[0])
        } else {
            acc * 10 + digit_value(s[0])
        };
        if next > i64::MAX {
            Err(IntFault::TooLarge)
        } else if next < i64::MIN {
            Err(IntFault::TooSmall)
        } else {
            read_digits(s.drop_first(), next, neg)
        }
    }
}

/// A text as an `i64`: an optional sign, then at least one digit.
pub open spec fn read_int(s: Seq<char>) -> Result<int, IntFault> {
    if s.len() == 0 {
        Err(IntFault::Empty)
    } else if s.len() == 1 && (s[0] == '+' || s[0] == '-') {
        Err(IntFault::Invalid)
    } else if s[0] == '+' {
        read_digits(s.drop_first(), 0, false)
    } else if s[0] == '-' {
        read_digits(s.drop_first(), 0, true)
    } else {
        read_digits(s, 0, false)
    }
}

/// `str::parse::<i64>`.
pub fn parse_i64(s: &str) -> (out: Result<i64, IntFault>)
    ensures
        out is Ok == read_int(s@) is Ok,
        out matches Ok(i) ==> read_int(s@) == Ok::<int, IntFault>(i as int),
        out matches Err(e) ==> read_int(s@) == Err::<int, IntFault>(e),
{
    let v = chars_of(s);
    if v.len() == 0 {
        return Err(IntFault::Empty);
    }
    if v.len() == 1 && (v[0] == '+' || v[0] == '-') {
        return Err(IntFault::Invalid);
    }
    let neg = v[0] == '-';
    let mut i: usize = if neg || v[0] == '+' {
        1
    } else {
        0
    };
    let mut acc: i64 = 0;
    proof {
        assert(s@.skip(1) =~= s@.drop_first());
        assert(s@.skip(0) =~= s@);
    }
    while i < v.len()
        invariant
            i <= v@.len(),
            v@ == s@,
            neg ==> acc <= 0,
            !neg ==> acc >= 0,
            read_int(s@) == read_digits(s@.skip(i as int), acc as int, neg),
        decreases v.len() - i,
    {
        let c = v[i];
        assert(s@.skip(i as int)[0] == c);
        assert(s@.skip(i as int).drop_first() =~= s@.skip(i + 1));
        if !char_is_digit(c) {
            return Err(IntFault::Invalid);
        }
        let d: i128 = (c as u32 - 48) as i128;
        let next: i128 = if neg {
            (acc as i128) * 10 - d
        } else {
            (acc as i128) * 10 + d
        };
        if next > i64::MAX as i128 {
            return Err(IntFault::TooLarge);
        }
        if next < i64::MIN as i128 {
            return Err(IntFault::TooSmall);
        }
        acc = next as i64;
        i += 1;
    }
    Ok(acc)
}

// ---------------------------------------------------------------------------
// Hexadecimal
// ---------------------------------------------------------------------------

pub open spec fn hex_char(d: int) -> char {
    if d < 10 {
        ('0' as int + d) as char
    } else {
        ('A' as int + d - 10) as char
    }
}

/// Two upper-case hexadecimal digits for every byte.
pub open spec fn hex_of(bytes: Seq<u8>) -> Seq<char>
    decreases bytes.len(),
{
    if bytes.len() == 0 {
        Seq::empty()
    } else {
        hex_of(bytes.drop_last()).push(hex_char(bytes.last() as int / 16)).push(
            hex_char(bytes.last() as int % 16),
        )
    }
}

fn hex_digit(d: u8) -> (out: char)
    requires
        d < 16,
    ensures
        out == hex_char(d as int),
{
    if d < 10 {
        (48u8 + d) as char
    } else {
        (65u8 + (d - 10)) as char
    }
}

pub fn hex(bytes: &Vec<u8>) -> (out: String)
    ensures
        out@ == hex_of(bytes@),
{
    let mut out = String::new();
    let mut i: usize = 0;
    assert(bytes@.take(0) =~= Seq::<u8>::empty());
    while i < bytes.len()
        invariant
            i <= bytes@.len(),
            out@ == hex_of(bytes@.take(i as int)),
        decreases bytes.len() - i,
    {
        let b = bytes[i];
        out.push(hex_digit(b / 16));
        out.push(hex_digit(b % 16));
        assert(bytes@.take(i + 1).drop_last() =~= bytes@.take(i as int));
        i += 1;
    }
    assert(bytes@.take(i as int) =~= bytes@);
    out
}

// ---------------------------------------------------------------------------
// What the operations keep
// ---------------------------------------------------------------------------

/// Whether a text is white space throughout.
pub open spec fn blank(s: Seq<char>) -> bool {
    forall|i: int| 0 <= i < s.len() ==> is_space(#[trigger] s[i])
}

proof fn lemma_trim_start_after(a: Seq<char>, s: Seq<char>)
    requires
        blank(a),
    ensures
        trim_start(a + s) == trim_start(s),
    decreases a.len(),
{
    if a.len() == 0 {
        assert(a + s =~= s);
    } else {
        assert((a + s).drop_first() =~= a.drop_first() + s);
        lemma_trim_start_after(a.drop_first(), s);
    }
}

proof fn lemma_trim_end_before(s: Seq<char>, b: Seq<char>)
    requires
        blank(b),
    ensures
        trim_end(s + b) == trim_end(s),
    decreases b.len(),
{
    if b.len() == 0 {
        assert(s + b =~= s);
    } else {
        assert((s + b).drop_last() =~= s + b.drop_last());
        assert((s + b).last() == b.last());
        lemma_trim_end_before(s, b.drop_last());
    }
}

/// Law: trimming takes off the white space at both ends, all of it, and nothing
/// else.
pub proof fn law_trim_takes_off_outer_space(a: Seq<char>, s: Seq<char>, b: Seq<char>)
    requires
        blank(a),
        blank(b),
        s.len() > 0 ==> !is_space(s[0]) && !is_space(s.last()),
    ensures
        trim(a + s + b) == s,
{
    assert(a + s + b =~= a + (s + b));
    lemma_trim_start_after(a, s + b);
    if s.len() > 0 {
        assert((s + b)[0] == s[0]);
        lemma_trim_end_before(s, b);
    } else {
        assert(s + b =~= b + Seq::<char>::empty());
        lemma_trim_start_after(b, Seq::empty());
        assert(trim_start(Seq::<char>::empty()) =~= Seq::<char>::empty());
        assert(s =~= Seq::<char>::empty());
    }
}

/// Law: characters of a set are taken off the end, all of them, and nothing else.
pub proof fn law_trim_end_takes_off_its_set(s: Seq<char>, b: Seq<char>, set: Seq<char>)
    requires
        forall|i: int| 0 <= i < b.len() ==> set.contains(#[trigger] b[i]),
        s.len() > 0 ==> !set.contains(s.last()),
    ensures
        trim_end_any(s + b, set) == s,
    decreases b.len(),
{
    if b.len() == 0 {
        assert(s + b =~= s);
    } else {
        assert((s + b).drop_last() =~= s + b.drop_last());
        assert((s + b).last() == b.last());
        law_trim_end_takes_off_its_set(s, b.drop_last(), set);
    }
}

/// Law: characters of a set are taken off the start, all of them, and nothing else.
pub proof fn law_trim_start_takes_off_its_set(a: Seq<char>, s: Seq<char>, set: Seq<char>)
    requires
        forall|i: int| 0 <= i < a.len() ==> set.contains(#[trigger] a[i]),
        s.len() > 0 ==> !set.contains(s[0]),
    ensures
        trim_start_any(a + s, set) == s,
    decreases a.len(),
{
    if a.len() == 0 {
        assert(a + s =~= s);
    } else {
        assert((a + s).drop_first() =~= a.drop_first() + s);
        assert((a + s)[0] == a[0]);
        law_trim_start_takes_off_its_set(a.drop_first(), s, set);
    }
}

/// Law: lower case keeps the length and everything but the capitals `A` to `Z`;
/// a capital becomes the small letter at its place in the alphabet.
pub proof fn law_lower_changes_capitals_only(s: Seq<char>, i: int)
    requires
        0 <= i < s.len(),
    ensures
        lower(s).len() == s.len(),
        lower(lower(s)) == lower(s),
        !('A' <= s[i] <= 'Z') ==> lower(s)[i] == s[i],
        'A' <= s[i] <= 'Z' ==> 'a' <= lower(s)[i] <= 'z' && lower(s)[i] as int - 'a' as int == s[i] as int - 'A' as int,
{
    assert forall|j: int| 0 <= j < s.len() implies lower(lower(s))[j] == #[trigger] lower(s)[j] by {}
    assert(lower(lower(s)) =~= lower(s));
}

/// Law: texts are ordered by the first character in which they differ; a text
/// comes before every longer text that it starts.
pub proof fn law_first_difference_orders(p: Seq<char>, c: char, a: Seq<char>, d: char, b: Seq<char>)
    ensures
        c != d ==> (less(p + seq![c] + a, p + seq![d] + b) <==> c < d),
        less(p, p + seq![c] + a),
        !less(p + seq![c] + a, p),
    decreases p.len(),
{
    let x = p + seq![c] + a;
    let y = p + seq![d] + b;
    if p.len() > 0 {
        let t = p.drop_first();
        assert(x.drop_first() =~= t + seq![c] + a);
        assert(y.drop_first() =~= t + seq![d] + b);
        assert(x[0] == p[0] && y[0] == p[0]);
        law_first_difference_orders(t, c, a, d, b);
    } else {
        assert(x[0] == c && y[0] == d);
    }
}

/// Law: a character is found at its first place, or nowhere.
pub proof fn law_find_is_the_first_place(a: Seq<char>, c: char, b: Seq<char>)
    requires
        !a.contains(c),
    ensures
        find(a + seq![c] + b, c) == a.len(),
        find(a, c) == a.len(),
{
    let s = a + seq![c] + b;
    lemma_find_from(s, c, 0);
    lemma_find_from(a, c, 0);
    assert(s[a.len() as int] == c);
    assert forall|j: int| 0 <= j < a.len() implies s[j] != c by {
        assert(s[j] == a[j] && a.contains(a[j]));
    }
    if find(a, c) < a.len() {
        assert(a.contains(a[find(a, c)]));
    }
}

/// Law: a text starts with, ends with and contains what was put there.
pub proof fn law_parts_are_found(a: Seq<char>, p: Seq<char>, b: Seq<char>)
    ensures
        starts_with(p + b, p),
        ends_with(a + p, p),
        contains(a + p + b, p),
{
    assert((p + b).take(p.len() as int) =~= p);
    assert((a + p).skip(a.len() as int) =~= p);
    assert((a + p + b).subrange(a.len() as int, (a.len() + p.len()) as int) =~= p);
}

/// Law: where a text starts or ends with another, the rest makes it up.
pub proof fn law_found_parts_are_there(s: Seq<char>, p: Seq<char>)
    ensures
        starts_with(s, p) ==> s == p + s.skip(p.len() as int),
        ends_with(s, p) ==> s == s.take(s.len() - p.len()) + p,
{
    if starts_with(s, p) {
        assert(s =~= s.take(p.len() as int) + s.skip(p.len() as int));
    }
    if ends_with(s, p) {
        assert(s =~= s.take(s.len() - p.len()) + s.skip(s.len() - p.len()));
    }
}

/// Whether a text has no white space.
pub open spec fn solid(s: Seq<char>) -> bool {
    forall|i: int| 0 <= i < s.len() ==> !is_space(#[trigger] s[i])
}

proof fn lemma_word_len_of(w: Seq<char>, rest: Seq<char>)
    requires
        solid(w),
        rest.len() == 0 || is_space(rest[0]),
    ensures
        word_len(w + rest) == w.len(),
    decreases w.len(),
{
    let s = w + rest;
    if w.len() == 0 {
        assert(s =~= rest);
    } else {
        assert(s.drop_first() =~= w.drop_first() + rest);
        assert(s[0] == w[0]);
        lemma_word_len_of(w.drop_first(), rest);
    }
}

/// Law: the words of a text are what white space separates: a word, where a text
/// starts with one and white space or nothing follows, and then the words of the
/// rest; none in white space alone.
pub proof fn law_words_are_what_space_separates(a: Seq<char>, w: Seq<char>, rest: Seq<char>)
    requires
        blank(a),
        solid(w),
        w.len() > 0,
        rest.len() == 0 || is_space(rest[0]),
    ensures
        words(a + w + rest) == seq![w] + words(rest),
        words(a) == Seq::<Seq<char>>::empty(),
{
    let s = a + w + rest;
    assert(s =~= a + (w + rest));
    lemma_trim_start_after(a, w + rest);
    let t = w + rest;
    assert(t[0] == w[0]);
    assert(trim_start(t) == t);
    lemma_word_len_of(w, rest);
    assert(t.take(w.len() as int) =~= w);
    assert(t.skip(w.len() as int) =~= rest);
    assert(a + Seq::<char>::empty() =~= a);
    lemma_trim_start_after(a, Seq::empty());
}

/// The value of a hexadecimal digit.
pub open spec fn hex_value(c: char) -> int {
    if '0' <= c <= '9' {
        c as int - '0' as int
    } else if 'A' <= c <= 'F' {
        c as int - 'A' as int + 10
    } else {
        -1
    }
}

/// Law: bytes are written as two hexadecimal digits each, the high one first.
pub proof fn law_hexadecimal_reads_back(bytes: Seq<u8>, i: int)
    requires
        0 <= i < bytes.len(),
    ensures
        hex_of(bytes).len() == 2 * bytes.len(),
        hex_value(hex_of(bytes)[2 * i]) * 16 + hex_value(hex_of(bytes)[2 * i + 1]) == bytes[i],
        0 <= hex_value(hex_of(bytes)[2 * i]) < 16,
        0 <= hex_value(hex_of(bytes)[2 * i + 1]) < 16,
    decreases bytes.len(),
{
    let head = bytes.drop_last();
    lemma_hex_len(head);
    if i < head.len() {
        law_hexadecimal_reads_back(head, i);
    }
}

proof fn lemma_hex_len(bytes: Seq<u8>)
    ensures
        hex_of(bytes).len() == 2 * bytes.len(),
    decreases bytes.len(),
{
    if bytes.len() > 0 {
        lemma_hex_len(bytes.drop_last());
    }
}

/// Law: white space is what Unicode counts as such: among the ASCII characters
/// tab, line feed, vertical tab, form feed, carriage return and blank; beyond them
/// the next line, the blanks of fixed widths, and the line and paragraph separators.
pub proof fn law_white_space_is_that_of_unicode(c: char)
    ensures
        is_space(c) <==> "\u{9}\u{A}\u{B}\u{C}\u{D}\u{20}\u{85}\u{A0}\u{1680}\u{2000}\u{2001}\u{2002}\u{2003}\u{2004}\u{2005}\u{2006}\u{2007}\u{2008}\u{2009}\u{200A}\u{2028}\u{2029}\u{202F}\u{205F}\u{3000}"@.contains(c),
{
    reveal_strlit(
        "\u{9}\u{A}\u{B}\u{C}\u{D}\u{20}\u{85}\u{A0}\u{1680}\u{2000}\u{2001}\u{2002}\u{2003}\u{2004}\u{2005}\u{2006}\u{2007}\u{2008}\u{2009}\u{200A}\u{2028}\u{2029}\u{202F}\u{205F}\u{3000}",
    );
    let all = "\u{9}\u{A}\u{B}\u{C}\u{D}\u{20}\u{85}\u{A0}\u{1680}\u{2000}\u{2001}\u{2002}\u{2003}\u{2004}\u{2005}\u{2006}\u{2007}\u{2008}\u{2009}\u{200A}\u{2028}\u{2029}\u{202F}\u{205F}\u{3000}"@;
    assert(all.len() == 25);
    assert forall|i: int| 0 <= i < 25 implies is_space(#[trigger] all[i]) by {}
    assert(all[0] == '\u{9}' && all[1] == '\u{A}' && all[2] == '\u{B}' && all[3] == '\u{C}' && all[4] == '\u{D}');
    assert(all[5] == '\u{20}' && all[6] == '\u{85}' && all[7] == '\u{A0}' && all[8] == '\u{1680}' && all[9] == '\u{2000}');
    assert(all[10] == '\u{2001}' && all[11] == '\u{2002}' && all[12] == '\u{2003}' && all[13] == '\u{2004}');
    assert(all[14] == '\u{2005}' && all[15] == '\u{2006}' && all[16] == '\u{2007}' && all[17] == '\u{2008}');
    assert(all[18] == '\u{2009}' && all[19] == '\u{200A}' && all[20] == '\u{2028}' && all[21] == '\u{2029}');
    assert(all[22] == '\u{202F}' && all[23] == '\u{205F}' && all[24] == '\u{3000}');
}

} // verus!
