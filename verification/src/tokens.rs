//! Texts with `${...}` tokens.

use vstd::prelude::*;
use vstd::string::*;

use crate::strmap;
use crate::strmap::StrMap;
use crate::text;
use crate::text::{cat3, chars_of, position, string_of, without_prefix};
use crate::views;

verus! {

/// A part of a text: plain, or what stands between `${` and `}`.
#[derive(Debug)]
pub enum Piece {
    Text(String),
    Token(String),
}

/// What a [`Piece`] holds.
#[verifier::ext_equal]
pub enum PieceV {
    Text(Seq<char>),
    Token(Seq<char>),
}

impl View for Piece {
    type V = PieceV;

    open spec fn view(&self) -> PieceV {
        match self {
            Piece::Text(s) => PieceV::Text(s@),
            Piece::Token(s) => PieceV::Token(s@),
        }
    }
}

impl PieceV {
    /// The piece as it stood in the text.
    pub open spec fn source(self) -> Seq<char> {
        match self {
            PieceV::Text(s) => s,
            PieceV::Token(s) => "${"@ + s + "}"@,
        }
    }
}

/// The first position at or after `i` where `${` stands; the length where there
/// is none.
pub open spec fn opening(s: Seq<char>, i: int) -> int
    decreases s.len() - i,
{
    if i < 0 || i + 1 >= s.len() {
        s.len() as int
    } else if s[i] == '$' && s[i + 1] == '{' {
        i
    } else {
        opening(s, i + 1)
    }
}

/// The parts of a text. A `${` that is never closed is plain text, with all
/// that follows it.
pub open spec fn pieces(s: Seq<char>) -> Seq<PieceV>
    decreases s.len(),
{
    let i = opening(s, 0);
    let j = text::find_from(s, '}', i + 2);
    if 0 <= i && i + 1 < s.len() && i + 2 <= j < s.len() {
        seq![PieceV::Text(s.take(i)), PieceV::Token(s.subrange(i + 2, j))] + pieces(s.skip(j + 1))
    } else {
        seq![PieceV::Text(s)]
    }
}

/// The texts one after the other.
pub open spec fn concat(parts: Seq<Seq<char>>) -> Seq<char>
    decreases parts.len(),
{
    if parts.len() == 0 {
        Seq::empty()
    } else {
        parts[0] + concat(parts.skip(1))
    }
}

proof fn lemma_concat_one(x: Seq<char>)
    ensures
        concat(seq![x]) == x,
        concat(Seq::<Seq<char>>::empty()) == Seq::<char>::empty(),
{
    let a = seq![x];
    assert(a.skip(1) =~= Seq::<Seq<char>>::empty());
    assert(concat(a.skip(1)) == Seq::<char>::empty());
    assert(concat(a) == a[0] + concat(a.skip(1)));
    assert(concat(a) =~= x);
}

proof fn lemma_opening(s: Seq<char>, i: int)
    requires
        0 <= i <= s.len(),
    ensures
        i <= opening(s, i) <= s.len(),
        opening(s, i) < s.len() ==> opening(s, i) + 1 < s.len() && s[opening(s, i)] == '$' && s[opening(s, i) + 1]
            == '{',
    decreases s.len() - i,
{
    if i + 1 < s.len() && !(s[i] == '$' && s[i + 1] == '{') {
        lemma_opening(s, i + 1);
    }
}

proof fn lemma_opening_skip(s: Seq<char>, from: int, i: int)
    requires
        0 <= from <= i <= s.len(),
    ensures
        opening(s, i) == from + opening(s.skip(from), i - from),
    decreases s.len() - i,
{
    let t = s.skip(from);
    if i + 1 < s.len() {
        assert(t[i - from] == s[i] && t[i - from + 1] == s[i + 1]);
        if !(s[i] == '$' && s[i + 1] == '{') {
            lemma_opening_skip(s, from, i + 1);
        }
    }
}

proof fn lemma_find_skip_from(s: Seq<char>, c: char, from: int, i: int)
    requires
        0 <= from <= i <= s.len(),
    ensures
        text::find_from(s, c, i) == from + text::find_from(s.skip(from), c, i - from),
    decreases s.len() - i,
{
    if i < s.len() {
        assert(s.skip(from)[i - from] == s[i]);
        if s[i] != c {
            lemma_find_skip_from(s, c, from, i + 1);
        }
    }
}

fn find_opening(v: &Vec<char>, from: usize) -> (out: usize)
    requires
        from <= v@.len(),
    ensures
        out == opening(v@, from as int),
        from <= out <= v@.len(),
        out < v@.len() ==> out + 1 < v@.len(),
{
    let mut i: usize = from;
    while i < v.len()
        invariant
            from <= i <= v@.len(),
            opening(v@, from as int) == opening(v@, i as int),
        decreases v.len() - i,
    {
        if v.len() - i < 2 {
            return v.len();
        }
        if v[i] == '$' && v[i + 1] == '{' {
            return i;
        }
        i += 1;
    }
    i
}

pub fn split_tokens(s: &str) -> (out: Vec<Piece>)
    ensures
        views::list(out@) == pieces(s@),
{
    let v = chars_of(s);
    let mut out: Vec<Piece> = Vec::new();
    let mut from: usize = 0;
    assert(s@.skip(0) =~= s@);
    assert(views::list(out@) =~= Seq::<PieceV>::empty());
    assert(views::list(out@) + pieces(s@) =~= pieces(s@));
    loop
        invariant_except_break
            from <= v@.len(),
            v@ == s@,
            views::list(out@) + pieces(s@.skip(from as int)) == pieces(s@),
        ensures
            views::list(out@) == pieces(s@),
        decreases v.len() - from,
    {
        let ghost rest = s@.skip(from as int);
        let i = find_opening(&v, from);
        proof {
            lemma_opening_skip(s@, from as int, from as int);
        }
        if i < v.len() {
            let j = position(&v, '}', i + 2);
            proof {
                lemma_find_skip_from(s@, '}', from as int, i + 2);
                text::lemma_find_from(s@, '}', i + 2);
            }
            if j < v.len() {
                let a = Piece::Text(string_of(&v, from, i));
                let b = Piece::Token(string_of(&v, i + 2, j));
                let ghost before = views::list(out@);
                proof {
                    views::lemma_list_push(out@, a);
                    views::lemma_list_push(out@.push(a), b);
                    assert(a@->Text_0 =~= rest.take(i - from));
                    assert(b@->Token_0 =~= rest.subrange(i + 2 - from, j - from));
                    assert(rest.skip(j - from + 1) =~= s@.skip(j + 1));
                    assert(before + pieces(rest) =~= before.push(a@).push(b@) + pieces(s@.skip(j + 1)));
                }
                out.push(a);
                out.push(b);
                from = j + 1;
                continue ;
            }
        }
        let a = Piece::Text(string_of(&v, from, v.len()));
        proof {
            views::lemma_list_push(out@, a);
            assert(a@->Text_0 =~= rest);
            assert(views::list(out@) + seq![PieceV::Text(rest)] =~= views::list(out@).push(a@));
        }
        out.push(a);
        break;
    }
    out
}

/// The parts, each as it stood in the text.
pub open spec fn sources(p: Seq<PieceV>) -> Seq<Seq<char>> {
    p.map_values(|x: PieceV| x.source())
}

/// Law: the parts of a text, as they stood in it, make up the text.
pub proof fn law_pieces_make_up_text(s: Seq<char>)
    ensures
        concat(sources(pieces(s))) == s,
    decreases s.len(),
{
    let i = opening(s, 0);
    lemma_opening(s, 0);
    reveal_strlit("${");
    reveal_strlit("}");
    let p = pieces(s);
    let all = sources(p);
    if i + 1 < s.len() {
        text::lemma_find_from(s, '}', i + 2);
    }
    let j = text::find_from(s, '}', i + 2);
    if i + 1 < s.len() && j < s.len() {
        let rest = pieces(s.skip(j + 1));
        law_pieces_make_up_text(s.skip(j + 1));
        assert(all.skip(1).skip(1) =~= sources(rest));
        assert(all[0] == s.take(i));
        assert(all.skip(1)[0] =~= s.subrange(i, j + 1));
        assert(concat(all.skip(1)) == all.skip(1)[0] + concat(all.skip(1).skip(1)));
        assert(concat(all) == all[0] + concat(all.skip(1)));
        assert(s =~= s.take(i) + (s.subrange(i, j + 1) + s.skip(j + 1)));
    } else {
        assert(all =~= seq![s]);
        lemma_concat_one(s);
    }
}

// ---------------------------------------------------------------------------
// Environment variables
// ---------------------------------------------------------------------------

/// The environment variables, by name.
pub type Env = Seq<(Seq<char>, Seq<char>)>;

/// The variable that a token names: `${NAME}` and `${env.NAME}` are the same.
pub open spec fn variable(token: Seq<char>) -> Seq<char> {
    if text::starts_with(token, "env."@) {
        token.skip(4)
    } else {
        token
    }
}

/// A part with its variable filled in; a token of an unknown variable stays.
pub open spec fn filled(p: PieceV, env: Env) -> Seq<char> {
    match p {
        PieceV::Text(s) => s,
        PieceV::Token(t) => match strmap::at(env, variable(t)) {
            Some(v) => v,
            None => p.source(),
        },
    }
}

/// A text with the variables filled in.
pub open spec fn expanded(s: Seq<char>, env: Env) -> Seq<char> {
    concat(pieces(s).map_values(|p: PieceV| filled(p, env)))
}

pub proof fn lemma_concat_push(parts: Seq<Seq<char>>, x: Seq<char>)
    ensures
        concat(parts.push(x)) == concat(parts) + x,
    decreases parts.len(),
{
    if parts.len() == 0 {
        assert(parts.push(x) =~= seq![x]);
        lemma_concat_one(x);
        assert(concat(parts) + x =~= x);
    } else {
        assert(parts.push(x).skip(1) =~= parts.skip(1).push(x));
        lemma_concat_push(parts.skip(1), x);
        assert(parts[0] + (concat(parts.skip(1)) + x) =~= parts[0] + concat(parts.skip(1)) + x);
    }
}

fn fill(p: &Piece, env: &StrMap<String>) -> (out: String)
    ensures
        out@ == filled(p@, env@),
{
    match p {
        Piece::Text(s) => s.clone(),
        Piece::Token(t) => {
            proof {
                reveal_strlit("env.");
            }
            let name = match without_prefix(t.as_str(), "env.") {
                Some(n) => n,
                None => t.clone(),
            };
            match env.get(name.as_str()) {
                Some(v) => v.clone(),
                None => cat3("${", t.as_str(), "}"),
            }
        },
    }
}

/// Expand `${VAR}` / `${env.VAR}` tokens from the environment, leaving unknown
/// variables untouched so misconfiguration surfaces in the failing code path.
pub fn expand_env(s: &str, env: &StrMap<String>) -> (out: String)
    ensures
        out@ == expanded(s@, env@),
{
    let parts = split_tokens(s);
    let ghost want = pieces(s@).map_values(|p: PieceV| filled(p, env@));
    let mut out = String::new();
    let mut i: usize = 0;
    assert(want.take(0) =~= Seq::<Seq<char>>::empty());
    while i < parts.len()
        invariant
            i <= parts.len(),
            views::list(parts@) == pieces(s@),
            want == pieces(s@).map_values(|p: PieceV| filled(p, env@)),
            out@ == concat(want.take(i as int)),
        decreases parts.len() - i,
    {
        let t = fill(&parts[i], env);
        proof {
            assert(pieces(s@)[i as int] == parts@[i as int]@);
            assert(t@ == want[i as int]);
            lemma_concat_push(want.take(i as int), t@);
            assert(want.take(i + 1) =~= want.take(i as int).push(t@));
        }
        out.append(t.as_str());
        i += 1;
    }
    assert(want.len() == parts@.len());
    assert(want.take(i as int) =~= want);
    out
}

/// Law: a text whose tokens all name unknown variables stays as it is; a text
/// without tokens does in particular.
pub proof fn law_unknown_variables_stay(s: Seq<char>, env: Env)
    requires
        forall|i: int|
            0 <= i < pieces(s).len() ==> (#[trigger] pieces(s)[i] matches PieceV::Token(t) ==> strmap::at(
                env,
                variable(t),
            ) is None),
    ensures
        expanded(s, env) == s,
{
    let a = pieces(s).map_values(|p: PieceV| filled(p, env));
    assert(a =~= sources(pieces(s))) by {
        assert forall|i: int| 0 <= i < a.len() implies a[i] == #[trigger] sources(pieces(s))[i] by {
            assert(pieces(s)[i] is Token ==> filled(pieces(s)[i], env) == pieces(s)[i].source());
        }
    }
    law_pieces_make_up_text(s);
}

proof fn lemma_opening_extends(head: Seq<char>, tail: Seq<char>, i: int)
    requires
        0 <= i <= head.len(),
        opening(head, i) == head.len(),
        tail.len() >= 2,
        tail[0] == '$',
        tail[1] == '{',
    ensures
        opening(head + tail, i) == head.len(),
    decreases head.len() - i,
{
    let s = head + tail;
    let n = head.len() as int;
    assert(s[n] == '$' && s[n + 1] == '{');
    if i < n {
        assert(s[i] == head[i]);
        if i + 1 < n {
            assert(s[i + 1] == head[i + 1]);
        }
        lemma_opening_extends(head, tail, i + 1);
    }
}

/// Law: a text falls into parts from the left: what stands before the first
/// `${`, what stands between that and the first `}` after it, and the parts of
/// the rest by itself.
pub proof fn law_parts_come_from_the_left(head: Seq<char>, t: Seq<char>, rest: Seq<char>)
    requires
        opening(head, 0) == head.len(),
        !t.contains('}'),
    ensures
        pieces(head + ("${"@ + t + "}"@) + rest) == seq![PieceV::Text(head), PieceV::Token(t)] + pieces(rest),
{
    reveal_strlit("${");
    reveal_strlit("}");
    let token = "${"@ + t + "}"@;
    let s = head + token + rest;
    let n = head.len() as int;
    assert(s =~= head + (token + rest));
    lemma_opening_extends(head, token + rest, 0);
    text::lemma_find_from(s, '}', n + 2);
    let j = text::find_from(s, '}', n + 2);
    let end = n + 2 + t.len();
    assert(s[end] == '}');
    if j < end {
        assert(t[j - n - 2] == '}');
    }
    assert(j == end);
    assert(s.take(n) =~= head);
    assert(s.subrange(n + 2, j) =~= t);
    assert(s.skip(j + 1) =~= rest);
}

/// Law: a text is expanded from the left: what stands before the first token
/// stays, the token is filled in, and the rest is expanded by itself. What is
/// filled in is not looked at again.
pub proof fn law_expansion_goes_from_the_left(head: Seq<char>, t: Seq<char>, rest: Seq<char>, env: Env)
    requires
        opening(head, 0) == head.len(),
        !t.contains('}'),
    ensures
        expanded(head + ("${"@ + t + "}"@) + rest, env) == head + filled(PieceV::Token(t), env) + expanded(rest, env),
{
    law_parts_come_from_the_left(head, t, rest);
    let s = head + ("${"@ + t + "}"@) + rest;
    let f = |p: PieceV| filled(p, env);
    let a = pieces(s).map_values(f);
    let b = pieces(rest).map_values(f);
    let v = filled(PieceV::Token(t), env);
    assert(a =~= seq![head, v] + b);
    assert(a.skip(1).skip(1) =~= b);
    assert(concat(a.skip(1)) == v + concat(b));
    assert(concat(a) =~= head + v + concat(b));
}

/// Law: `${NAME}` and `${env.NAME}` expand to the value of a known variable.
pub proof fn law_known_variable_is_filled_in(name: Seq<char>, env: Env)
    requires
        strmap::at(env, name) is Some,
        !name.contains('}'),
        !text::starts_with(name, "env."@),
    ensures
        expanded("${"@ + name + "}"@, env) == strmap::at(env, name)->Some_0,
        expanded("${env."@ + name + "}"@, env) == strmap::at(env, name)->Some_0,
{
    reveal_strlit("${");
    reveal_strlit("}");
    reveal_strlit("env.");
    reveal_strlit("${env.");
    lemma_single(name, env);
    let full = "env."@ + name;
    assert("${"@ + full + "}"@ =~= "${env."@ + name + "}"@);
    assert(full.take(4) =~= "env."@);
    assert(full.skip(4) =~= name);
    assert(!full.contains('}')) by {
        if full.contains('}') {
            let k = choose|k: int| 0 <= k < full.len() && full[k] == '}';
            assert(k >= 4 && name[k - 4] == '}');
        }
    }
    lemma_single(full, env);
}

/// A text that is one token.
proof fn lemma_single(t: Seq<char>, env: Env)
    requires
        !t.contains('}'),
        strmap::at(env, variable(t)) is Some,
    ensures
        expanded("${"@ + t + "}"@, env) == strmap::at(env, variable(t))->Some_0,
{
    reveal_strlit("${");
    reveal_strlit("}");
    let s = "${"@ + t + "}"@;
    let j = s.len() - 1;
    assert(s[0] == '$' && s[1] == '{');
    assert(opening(s, 0) == 0);
    text::lemma_find_from(s, '}', 2);
    let f = text::find_from(s, '}', 2);
    assert(s[j] == '}');
    if f < j {
        assert(t[f - 2] == '}');
        assert(t.contains('}'));
    }
    assert(f == j);
    assert(s.subrange(2, j) =~= t);
    assert(s.take(0) =~= Seq::<char>::empty());
    let e = s.skip(j + 1);
    assert(e =~= Seq::<char>::empty());
    assert(pieces(e) == seq![PieceV::Text(e)]);
    let p = pieces(s);
    assert(p =~= seq![PieceV::Text(s.take(0)), PieceV::Token(t), PieceV::Text(e)]);
    let a = p.map_values(|x: PieceV| filled(x, env));
    let v = strmap::at(env, variable(t))->Some_0;
    assert(a =~= seq![Seq::<char>::empty(), v, Seq::<char>::empty()]);
    assert(a.skip(1) =~= seq![v, Seq::<char>::empty()]);
    assert(a.skip(1).skip(1) =~= seq![Seq::<char>::empty()]);
    lemma_concat_one(Seq::<char>::empty());
    assert(concat(a.skip(1)) =~= v);
    assert(concat(a) =~= v);
}

} // verus!
