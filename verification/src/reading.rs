//! What statements say: reading SQL text back.
//!
//! The functions here read the text of a statement as a database does, as far as
//! the statements of this library go, so that a law can speak of what a statement
//! does: which table it names, which columns, which placeholders stand for which
//! values, and what its conditions demand.

use vstd::prelude::*;

use crate::sql;
use crate::text;

verus! {

/// What follows `t` at the start of a text.
pub open spec fn after(s: Seq<char>, t: Seq<char>) -> Option<Seq<char>> {
    if t.len() <= s.len() && s.take(t.len() as int) == t {
        Some(s.skip(t.len() as int))
    } else {
        None
    }
}

pub proof fn lemma_after(t: Seq<char>, rest: Seq<char>)
    ensures
        after(t + rest, t) == Some(rest),
{
    assert((t + rest).take(t.len() as int) =~= t);
    assert((t + rest).skip(t.len() as int) =~= rest);
}

/// A text that starts with another character does not start with `t`.
pub proof fn lemma_not_after(s: Seq<char>, t: Seq<char>)
    requires
        t.len() > 0,
        s.len() > 0 ==> s[0] != t[0],
    ensures
        after(s, t) is None,
{
    if t.len() <= s.len() && s.take(t.len() as int) == t {
        assert(s.take(t.len() as int)[0] == s[0]);
    }
}

// ---------------------------------------------------------------------------
// Names
// ---------------------------------------------------------------------------

/// The rest of a quoted name, behind its opening quote: a doubled quote is part of
/// the name, a single one ends it.
pub open spec fn name_body(s: Seq<char>, q: char, name: Seq<char>) -> Option<(Seq<char>, Seq<char>)>
    decreases s.len(),
{
    if s.len() == 0 {
        None
    } else if s[0] != q {
        name_body(s.skip(1), q, name.push(s[0]))
    } else if s.len() >= 2 && s[1] == q {
        name_body(s.skip(2), q, name.push(q))
    } else {
        Some((name, s.skip(1)))
    }
}

/// The quoted name that a text starts with, and what follows it.
pub open spec fn name_at(s: Seq<char>, q: char) -> Option<(Seq<char>, Seq<char>)> {
    if s.len() == 0 || s[0] != q {
        None
    } else {
        name_body(s.skip(1), q, Seq::empty())
    }
}

/// Whether a text does not go on with this character.
pub open spec fn not_before(s: Seq<char>, c: char) -> bool {
    s.len() == 0 || s[0] != c
}

proof fn lemma_double_front(c: char, s: Seq<char>, q: char)
    ensures
        text::double(seq![c] + s, q) == (if c == q {
            seq![q, q]
        } else {
            seq![c]
        }) + text::double(s, q),
    decreases s.len(),
{
    let a = seq![c] + s;
    if s.len() == 0 {
        assert(a.drop_last() =~= Seq::<char>::empty());
        assert(text::double(Seq::<char>::empty(), q) =~= Seq::<char>::empty());
        assert(a.last() == c);
        assert(text::double(a, q) =~= (if c == q {
            seq![q, q]
        } else {
            seq![c]
        }) + text::double(s, q));
    } else {
        lemma_double_front(c, s.drop_last(), q);
        assert(a.drop_last() =~= seq![c] + s.drop_last());
        assert(a.last() == s.last());
        assert(text::double(a, q) =~= (if c == q {
            seq![q, q]
        } else {
            seq![c]
        }) + text::double(s, q));
    }
}

proof fn lemma_name_body(s: Seq<char>, q: char, name: Seq<char>, rest: Seq<char>)
    requires
        not_before(rest, q),
    ensures
        name_body(text::double(s, q) + seq![q] + rest, q, name) == Some((name + s, rest)),
    decreases s.len(),
{
    let all = text::double(s, q) + seq![q] + rest;
    if s.len() == 0 {
        assert(all =~= seq![q] + rest);
        assert(all.skip(1) =~= rest);
        assert(name + s =~= name);
    } else {
        let t = s.skip(1);
        assert(s =~= seq![s[0]] + t);
        lemma_double_front(s[0], t, q);
        lemma_name_body(t, q, name.push(s[0]), rest);
        assert(name.push(s[0]) + t =~= name + s);
        if s[0] == q {
            assert(all.skip(2) =~= text::double(t, q) + seq![q] + rest);
            assert(all[0] == q && all[1] == q);
        } else {
            assert(all.skip(1) =~= text::double(t, q) + seq![q] + rest);
            assert(all[0] == s[0]);
        }
    }
}

/// Law: a quoted name reads back as the name, whatever characters it holds.
pub proof fn law_quoted_name_reads_back(name: Seq<char>, q: char, rest: Seq<char>)
    requires
        not_before(rest, q),
    ensures
        name_at(text::quoted(name, q) + rest, q) == Some((name, rest)),
{
    let all = text::quoted(name, q) + rest;
    lemma_name_body(name, q, Seq::empty(), rest);
    assert(all.skip(1) =~= text::double(name, q) + seq![q] + rest);
    assert(Seq::<char>::empty() + name =~= name);
}

// ---------------------------------------------------------------------------
// Numerals
// ---------------------------------------------------------------------------

/// The number of digits that a text starts with.
pub open spec fn run_len(s: Seq<char>) -> int
    decreases s.len(),
{
    if s.len() == 0 || !('0' <= s[0] <= '9') {
        0
    } else {
        1 + run_len(s.skip(1))
    }
}

/// The number that digits stand for.
pub open spec fn run_value(s: Seq<char>) -> nat
    decreases s.len(),
{
    if s.len() == 0 {
        0
    } else {
        (run_value(s.drop_last()) * 10 + (s.last() as int - '0' as int)) as nat
    }
}

/// The number that a text starts with, and what follows it.
pub open spec fn numeral_at(s: Seq<char>) -> Option<(nat, Seq<char>)> {
    let n = run_len(s);
    if n <= 0 || n > s.len() {
        None
    } else {
        Some((run_value(s.take(n)), s.skip(n)))
    }
}

/// Whether a text does not go on with a digit.
pub open spec fn no_digit(s: Seq<char>) -> bool {
    s.len() == 0 || !('0' <= s[0] <= '9')
}

pub proof fn lemma_dec_digits(n: nat)
    ensures
        text::dec(n).len() >= 1,
        forall|i: int| 0 <= i < text::dec(n).len() ==> '0' <= (#[trigger] text::dec(n)[i]) <= '9',
        run_value(text::dec(n)) == n,
    decreases n,
{
    if n >= 10 {
        lemma_dec_digits(n / 10);
        assert(text::dec(n).drop_last() =~= text::dec(n / 10));
        assert forall|i: int| 0 <= i < text::dec(n).len() implies '0' <= (#[trigger] text::dec(n)[i]) <= '9' by {
            if i < text::dec(n / 10).len() {
                assert(text::dec(n)[i] == text::dec(n / 10)[i]);
            }
        }
    } else {
        assert(text::dec(n).drop_last() =~= Seq::<char>::empty());
        assert(run_value(Seq::<char>::empty()) == 0);
    }
}

proof fn lemma_run_len(d: Seq<char>, rest: Seq<char>)
    requires
        forall|i: int| 0 <= i < d.len() ==> '0' <= (#[trigger] d[i]) <= '9',
        no_digit(rest),
    ensures
        run_len(d + rest) == d.len(),
    decreases d.len(),
{
    if d.len() == 0 {
        assert(d + rest =~= rest);
    } else {
        assert((d + rest).skip(1) =~= d.skip(1) + rest);
        assert forall|i: int| 0 <= i < d.skip(1).len() implies '0' <= (#[trigger] d.skip(1)[i]) <= '9' by {
            assert(d.skip(1)[i] == d[i + 1]);
        }
        assert((d + rest)[0] == d[0]);
        lemma_run_len(d.skip(1), rest);
    }
}

/// Law: the decimal numeral of a number reads back as the number.
pub proof fn law_numeral_reads_back(n: nat, rest: Seq<char>)
    requires
        no_digit(rest),
    ensures
        numeral_at(text::dec(n) + rest) == Some((n, rest)),
{
    lemma_dec_digits(n);
    lemma_run_len(text::dec(n), rest);
    let d = text::dec(n);
    assert((d + rest).take(d.len() as int) =~= d);
    assert((d + rest).skip(d.len() as int) =~= rest);
}

// ---------------------------------------------------------------------------
// Lists
// ---------------------------------------------------------------------------

/// How an item is read at the start of a text.
pub type ItemAt<T> = spec_fn(Seq<char>) -> Option<(T, Seq<char>)>;

/// The items that a text starts with, one or more, with separators between them.
pub open spec fn list_at<T>(s: Seq<char>, item: ItemAt<T>, sep: Seq<char>) -> Option<(Seq<T>, Seq<char>)>
    decreases s.len(),
{
    match item(s) {
        None => None,
        Some((x, r)) => match after(r, sep) {
            None => Some((seq![x], r)),
            Some(more) => if more.len() >= s.len() {
                None
            } else {
                match list_at(more, item, sep) {
                    None => None,
                    Some((v, end)) => Some((seq![x] + v, end)),
                }
            },
        },
    }
}

pub proof fn lemma_join_front(parts: Seq<Seq<char>>, sep: Seq<char>)
    requires
        parts.len() > 1,
    ensures
        text::join(parts, sep) == parts[0] + sep + text::join(parts.skip(1), sep),
    decreases parts.len(),
{
    let t = parts.skip(1);
    let head = parts.drop_last();
    if parts.len() == 2 {
        assert(head =~= seq![parts[0]]);
        assert(t =~= seq![parts[1]]);
        assert(text::join(head, sep) == parts[0]);
        assert(text::join(t, sep) == parts[1]);
        assert(parts.last() == parts[1]);
    } else {
        lemma_join_front(head, sep);
        assert(head.skip(1) =~= t.drop_last());
        assert(t.last() == parts.last());
        assert(parts[0] + sep + text::join(t.drop_last(), sep) + sep + parts.last() =~= parts[0] + sep + (text::join(
            t.drop_last(),
            sep,
        ) + sep + parts.last()));
    }
}

/// Whether each text reads as its item wherever the text may go on so.
pub open spec fn items_read<T>(
    parts: Seq<Seq<char>>,
    xs: Seq<T>,
    item: ItemAt<T>,
    may_follow: spec_fn(Seq<char>) -> bool,
) -> bool {
    &&& parts.len() == xs.len()
    &&& forall|i: int, rest: Seq<char>|
        0 <= i < parts.len() && may_follow(rest) ==> #[trigger] item(parts[i] + rest) == Some((xs[i], rest))
}

/// Items that are joined read back as the items.
pub proof fn lemma_list_reads_back<T>(
    parts: Seq<Seq<char>>,
    xs: Seq<T>,
    item: ItemAt<T>,
    sep: Seq<char>,
    may_follow: spec_fn(Seq<char>) -> bool,
    rest: Seq<char>,
)
    requires
        parts.len() > 0,
        items_read(parts, xs, item, may_follow),
        forall|more: Seq<char>| may_follow(#[trigger] (sep + more)),
        sep.len() > 0,
        may_follow(rest),
        after(rest, sep) is None,
    ensures
        list_at(text::join(parts, sep) + rest, item, sep) == Some((xs, rest)),
    decreases parts.len(),
{
    let all = text::join(parts, sep) + rest;
    if parts.len() == 1 {
        assert(item(parts[0] + rest) == Some((xs[0], rest)));
        assert(seq![xs[0]] =~= xs);
    } else {
        let t = parts.skip(1);
        let ys = xs.skip(1);
        let more = text::join(t, sep) + rest;
        lemma_join_front(parts, sep);
        assert(all =~= parts[0] + (sep + more));
        assert(may_follow(sep + more));
        assert(item(parts[0] + (sep + more)) == Some((xs[0], sep + more)));
        lemma_after(sep, more);
        assert forall|i: int, r: Seq<char>| 0 <= i < t.len() && may_follow(r) implies #[trigger] item(t[i] + r) == Some(
            (ys[i], r),
        ) by {
            assert(t[i] == parts[i + 1]);
            assert(item(parts[i + 1] + r) == Some((xs[i + 1], r)));
        }
        lemma_list_reads_back(t, ys, item, sep, may_follow, rest);
        assert(more.len() < all.len());
        assert(seq![xs[0]] + ys =~= xs);
    }
}

/// How a quoted name is read.
pub open spec fn name_item(q: char) -> ItemAt<Seq<char>> {
    |s: Seq<char>| name_at(s, q)
}

/// The names that a text starts with, quoted and separated.
pub open spec fn names_at(s: Seq<char>, q: char, sep: Seq<char>) -> Option<(Seq<Seq<char>>, Seq<char>)> {
    list_at(s, name_item(q), sep)
}

pub proof fn lemma_names_read_back(names: Seq<Seq<char>>, q: char, sep: Seq<char>, rest: Seq<char>)
    requires
        names.len() > 0,
        sep.len() > 0,
        sep[0] != q,
        not_before(rest, q),
        after(rest, sep) is None,
    ensures
        names_at(text::join(sql::quoted_all(names, q), sep) + rest, q, sep) == Some((names, rest)),
{
    let parts = sql::quoted_all(names, q);
    let ok = |r: Seq<char>| not_before(r, q);
    assert forall|i: int, r: Seq<char>| 0 <= i < parts.len() && ok(r) implies #[trigger] name_item(q)(parts[i] + r) == Some(
        (names[i], r),
    ) by {
        law_quoted_name_reads_back(names[i], q, r);
    }
    assert forall|more: Seq<char>| ok(#[trigger] (sep + more)) by {
        assert((sep + more)[0] == sep[0]);
    }
    lemma_list_reads_back(parts, names, name_item(q), sep, ok, rest);
}

/// Two names with something before, between and behind them.
pub open spec fn pair_at(s: Seq<char>, q: char, before: Seq<char>, between: Seq<char>, behind: Seq<char>) -> Option<
    ((Seq<char>, Seq<char>), Seq<char>),
> {
    match after(s, before) {
        None => None,
        Some(a) => match name_at(a, q) {
            None => None,
            Some((x, b)) => match after(b, between) {
                None => None,
                Some(c) => match name_at(c, q) {
                    None => None,
                    Some((y, d)) => match after(d, behind) {
                        None => None,
                        Some(e) => Some(((x, y), e)),
                    },
                },
            },
        },
    }
}

pub open spec fn pair_item(q: char, before: Seq<char>, between: Seq<char>, behind: Seq<char>) -> ItemAt<
    (Seq<char>, Seq<char>),
> {
    |s: Seq<char>| pair_at(s, q, before, between, behind)
}

/// Each name with itself.
pub open spec fn with_itself(names: Seq<Seq<char>>) -> Seq<(Seq<char>, Seq<char>)> {
    names.map_values(|c: Seq<char>| (c, c))
}

pub proof fn lemma_pair_reads_back(
    c: Seq<char>,
    q: char,
    before: Seq<char>,
    between: Seq<char>,
    behind: Seq<char>,
    rest: Seq<char>,
)
    requires
        between.len() > 0,
        between[0] != q,
        not_before(behind + rest, q),
    ensures
        pair_at(
            before + text::quoted(c, q) + between + text::quoted(c, q) + behind + rest,
            q,
            before,
            between,
            behind,
        ) == Some(((c, c), rest)),
{
    let n = text::quoted(c, q);
    let d = behind + rest;
    let b = between + (n + d);
    assert(before + n + between + n + behind + rest =~= before + (n + b));
    lemma_after(before, n + b);
    assert(b[0] == between[0]);
    law_quoted_name_reads_back(c, q, b);
    lemma_after(between, n + d);
    law_quoted_name_reads_back(c, q, d);
    lemma_after(behind, rest);
}

pub proof fn lemma_pairs_read_back(
    names: Seq<Seq<char>>,
    q: char,
    before: Seq<char>,
    between: Seq<char>,
    behind: Seq<char>,
    sep: Seq<char>,
    rest: Seq<char>,
)
    requires
        names.len() > 0,
        between.len() > 0,
        between[0] != q,
        behind.len() > 0 ==> behind[0] != q,
        sep.len() > 0,
        sep[0] != q,
        not_before(rest, q),
        after(rest, sep) is None,
    ensures
        list_at(
            text::join(sql::framed(names, q, before, between, behind), sep) + rest,
            pair_item(q, before, between, behind),
            sep,
        ) == Some((with_itself(names), rest)),
{
    let parts = sql::framed(names, q, before, between, behind);
    let xs = with_itself(names);
    let item = pair_item(q, before, between, behind);
    let ok = |r: Seq<char>| not_before(r, q);
    assert forall|i: int, r: Seq<char>| 0 <= i < parts.len() && ok(r) implies #[trigger] item(parts[i] + r) == Some(
        (xs[i], r),
    ) by {
        assert(behind.len() == 0 ==> behind + r =~= r);
        assert(behind.len() > 0 ==> (behind + r)[0] == behind[0]);
        lemma_pair_reads_back(names[i], q, before, between, behind, r);
    }
    assert forall|more: Seq<char>| ok(#[trigger] (sep + more)) by {
        assert((sep + more)[0] == sep[0]);
    }
    lemma_list_reads_back(parts, xs, item, sep, ok, rest);
}

// ---------------------------------------------------------------------------
// Placeholders
// ---------------------------------------------------------------------------

/// A numbered placeholder.
pub open spec fn mark_at(s: Seq<char>, prefix: Seq<char>) -> Option<(nat, Seq<char>)> {
    match after(s, prefix) {
        None => None,
        Some(r) => numeral_at(r),
    }
}

pub open spec fn mark_item(prefix: Seq<char>) -> ItemAt<nat> {
    |s: Seq<char>| mark_at(s, prefix)
}

/// The numbers `from + 1` to `from + n`.
pub open spec fn counting(from: int, n: nat) -> Seq<nat> {
    Seq::new(n, |j: int| (from + j + 1) as nat)
}

pub proof fn lemma_marks_read_back(prefix: Seq<char>, from: int, n: nat, sep: Seq<char>, rest: Seq<char>)
    requires
        n > 0,
        from >= 0,
        sep.len() > 0,
        no_digit(sep),
        no_digit(rest),
        after(rest, sep) is None,
    ensures
        list_at(text::join(sql::numbered(prefix, from, n), sep) + rest, mark_item(prefix), sep) == Some(
            (counting(from, n), rest),
        ),
{
    let parts = sql::numbered(prefix, from, n);
    let xs = counting(from, n);
    let item = mark_item(prefix);
    let ok = |r: Seq<char>| no_digit(r);
    assert forall|i: int, r: Seq<char>| 0 <= i < parts.len() && ok(r) implies #[trigger] item(parts[i] + r) == Some(
        (xs[i], r),
    ) by {
        let d = text::dec((from + i + 1) as nat);
        assert(parts[i] + r =~= prefix + (d + r));
        lemma_after(prefix, d + r);
        law_numeral_reads_back((from + i + 1) as nat, r);
    }
    assert forall|more: Seq<char>| ok(#[trigger] (sep + more)) by {
        assert((sep + more)[0] == sep[0]);
    }
    lemma_list_reads_back(parts, xs, item, sep, ok, rest);
}

/// Something in round brackets: what an item reads, between `(` and `)`.
pub open spec fn in_brackets<T>(s: Seq<char>, item: ItemAt<T>) -> Option<(T, Seq<char>)> {
    match after(s, "("@) {
        None => None,
        Some(a) => match item(a) {
            None => None,
            Some((x, b)) => match after(b, ")"@) {
                None => None,
                Some(c) => Some((x, c)),
            },
        },
    }
}

// ---------------------------------------------------------------------------
// Conditions
// ---------------------------------------------------------------------------

/// A part of a condition: an equation, and whether an `OR` stands before it (an
/// `AND` otherwise, unless it is the first).
#[verifier::ext_equal]
pub struct Part {
    pub or: bool,
    pub left: Seq<char>,
    pub right: Seq<char>,
}

/// The parts that follow an equation.
pub open spec fn more_parts(s: Seq<char>, equation: ItemAt<(Seq<char>, Seq<char>)>) -> (Seq<Part>, Seq<char>)
    decreases s.len(),
{
    let (or, r) = match after(s, " AND "@) {
        Some(r) => (false, Some(r)),
        None => (true, after(s, " OR "@)),
    };
    match r {
        None => (Seq::empty(), s),
        Some(r) => match equation(r) {
            None => (Seq::empty(), s),
            Some((x, end)) => if end.len() >= s.len() {
                (Seq::empty(), s)
            } else {
                let (v, rest) = more_parts(end, equation);
                (seq![Part { or, left: x.0, right: x.1 }] + v, rest)
            },
        },
    }
}

/// The condition that a text starts with: equations with `AND` and `OR` between
/// them.
pub open spec fn condition_at(s: Seq<char>, equation: ItemAt<(Seq<char>, Seq<char>)>) -> Option<(Seq<Part>, Seq<char>)> {
    match equation(s) {
        None => None,
        Some((x, r)) => {
            let (v, rest) = more_parts(r, equation);
            Some((seq![Part { or: false, left: x.0, right: x.1 }] + v, rest))
        },
    }
}

/// Whether a condition holds, where `AND` binds tighter than `OR`: `so_far` says
/// whether the equations since the last `OR` hold.
pub open spec fn met_from(parts: Seq<Part>, i: int, so_far: bool, holds: spec_fn(Seq<char>, Seq<char>) -> bool) -> bool
    decreases parts.len() - i,
{
    if i < 0 || i >= parts.len() {
        so_far
    } else if parts[i].or {
        so_far || met_from(parts, i + 1, holds(parts[i].left, parts[i].right), holds)
    } else {
        met_from(parts, i + 1, so_far && holds(parts[i].left, parts[i].right), holds)
    }
}

/// Whether a condition holds, given which equations hold.
pub open spec fn met(parts: Seq<Part>, holds: spec_fn(Seq<char>, Seq<char>) -> bool) -> bool {
    met_from(parts, 0, true, holds)
}

/// The parts of a condition that demands all equations.
pub open spec fn conjunction(names: Seq<Seq<char>>) -> Seq<Part> {
    names.map_values(|c: Seq<char>| Part { or: false, left: c, right: c })
}

pub proof fn lemma_conjunction_is_met(
    names: Seq<Seq<char>>,
    i: int,
    so_far: bool,
    holds: spec_fn(Seq<char>, Seq<char>) -> bool,
)
    requires
        0 <= i <= names.len(),
    ensures
        met_from(conjunction(names), i, so_far, holds) <==> so_far && forall|k: int|
            i <= k < names.len() ==> holds(#[trigger] names[k], names[k]),
    decreases names.len() - i,
{
    if i < names.len() {
        let now = so_far && holds(names[i], names[i]);
        lemma_conjunction_is_met(names, i + 1, now, holds);
        if now && (forall|k: int| i + 1 <= k < names.len() ==> holds(#[trigger] names[k], names[k])) {
            assert forall|k: int| i <= k < names.len() implies holds(#[trigger] names[k], names[k]) by {}
        }
        if so_far && (forall|k: int| i <= k < names.len() ==> holds(#[trigger] names[k], names[k])) {
            assert(holds(names[i], names[i]));
        }
    }
}

/// What follows the first of several parts that are joined by `AND`.
spec fn follow(parts: Seq<Seq<char>>, rest: Seq<char>) -> Seq<char> {
    if parts.len() <= 1 {
        rest
    } else {
        " AND "@ + (text::join(parts.skip(1), " AND "@) + rest)
    }
}

proof fn lemma_follow(parts: Seq<Seq<char>>, rest: Seq<char>)
    requires
        parts.len() > 0,
    ensures
        text::join(parts, " AND "@) + rest == parts[0] + follow(parts, rest),
{
    if parts.len() > 1 {
        let tail = text::join(parts.skip(1), " AND "@);
        lemma_join_front(parts, " AND "@);
        lemma_regroup(parts[0] + " AND "@, tail, rest);
        lemma_regroup(parts[0], " AND "@, tail + rest);
    }
}

proof fn lemma_no_more(rest: Seq<char>, eq: ItemAt<(Seq<char>, Seq<char>)>)
    requires
        not_before(rest, ' '),
    ensures
        more_parts(rest, eq) == (Seq::<Part>::empty(), rest),
{
    reveal_strlit(" AND ");
    reveal_strlit(" OR ");
    lemma_not_after(rest, " AND "@);
    lemma_not_after(rest, " OR "@);
}

proof fn lemma_more_parts(
    parts: Seq<Seq<char>>,
    names: Seq<Seq<char>>,
    eq: ItemAt<(Seq<char>, Seq<char>)>,
    may_follow: spec_fn(Seq<char>) -> bool,
    rest: Seq<char>,
)
    requires
        parts.len() > 0,
        parts.len() == names.len(),
        not_before(rest, ' '),
        may_follow(rest),
        forall|more: Seq<char>| may_follow(#[trigger] (" AND "@ + more)),
        forall|i: int, r: Seq<char>|
            0 <= i < parts.len() && may_follow(r) ==> #[trigger] eq(parts[i] + r) == Some(((names[i], names[i]), r)),
    ensures
        more_parts(follow(parts, rest), eq) == (conjunction(names.skip(1)), rest),
    decreases parts.len(),
{
    if parts.len() == 1 {
        lemma_no_more(rest, eq);
        assert(conjunction(names.skip(1)) =~= Seq::<Part>::empty());
    } else {
        let t = parts.skip(1);
        let n = names.skip(1);
        assert forall|i: int, r: Seq<char>| 0 <= i < t.len() && may_follow(r) implies #[trigger] eq(t[i] + r) == Some(
            ((n[i], n[i]), r),
        ) by {
            assert(eq(parts[i + 1] + r) == Some(((names[i + 1], names[i + 1]), r)));
        }
        lemma_more_parts(t, n, eq, may_follow, rest);
        lemma_follow(t, rest);
        let r = t[0] + follow(t, rest);
        assert(follow(parts, rest) == " AND "@ + r);
        lemma_after(" AND "@, r);
        assert(may_follow(follow(t, rest)));
        assert(eq(t[0] + follow(t, rest)) == Some(((n[0], n[0]), follow(t, rest))));
        reveal_strlit(" AND ");
        assert(follow(t, rest).len() < follow(parts, rest).len());
        assert(seq![Part { or: false, left: n[0], right: n[0] }] + conjunction(n.skip(1)) =~= conjunction(n));
    }
}

/// Equations of names with themselves, joined by `AND`, read as a condition that
/// holds just where all of them do.
pub proof fn lemma_conjunction_reads_back(
    names: Seq<Seq<char>>,
    q: char,
    before: Seq<char>,
    between: Seq<char>,
    rest: Seq<char>,
)
    requires
        names.len() > 0,
        between.len() > 0,
        between[0] != q,
        q != ' ',
        not_before(rest, q),
        not_before(rest, ' '),
    ensures
        condition_at(
            text::join(sql::framed(names, q, before, between, ""@), " AND "@) + rest,
            pair_item(q, before, between, ""@),
        ) == Some((conjunction(names), rest)),
{
    reveal_strlit("");
    reveal_strlit(" AND ");
    let parts = sql::framed(names, q, before, between, ""@);
    let eq = pair_item(q, before, between, ""@);
    let ok = |r: Seq<char>| not_before(r, q);
    assert forall|more: Seq<char>| ok(#[trigger] (" AND "@ + more)) by {
        assert((" AND "@ + more)[0] == ' ');
    }
    assert forall|i: int, r: Seq<char>| 0 <= i < parts.len() && ok(r) implies #[trigger] eq(parts[i] + r) == Some(
        ((names[i], names[i]), r),
    ) by {
        assert(""@ + r =~= r);
        lemma_pair_reads_back(names[i], q, before, between, ""@, r);
    }
    lemma_more_parts(parts, names, eq, ok, rest);
    lemma_follow(parts, rest);
    assert(ok(follow(parts, rest)));
    assert(eq(parts[0] + follow(parts, rest)) == Some(((names[0], names[0]), follow(parts, rest))));
    assert(seq![Part { or: false, left: names[0], right: names[0] }] + conjunction(names.skip(1)) =~= conjunction(names));
}

/// Texts joined from the left are joined from the right.
pub proof fn lemma_regroup(a: Seq<char>, b: Seq<char>, c: Seq<char>)
    ensures
        (a + b) + c == a + (b + c),
{
    assert((a + b) + c =~= a + (b + c));
}

/// What an item reads before a closing bracket it reads in brackets.
pub proof fn lemma_in_brackets<T>(part: Seq<char>, x: T, item: ItemAt<T>, rest: Seq<char>)
    requires
        item(part + (")"@ + rest)) == Some((x, ")"@ + rest)),
    ensures
        in_brackets("("@ + part + ")"@ + rest, item) == Some((x, rest)),
{
    assert("("@ + part + ")"@ + rest =~= "("@ + (part + (")"@ + rest)));
    lemma_after("("@, part + (")"@ + rest));
    lemma_after(")"@, rest);
}

// ---------------------------------------------------------------------------
// Whole numbers
// ---------------------------------------------------------------------------

/// Whether a text consists of digits, at least one.
pub open spec fn all_digits(s: Seq<char>) -> bool {
    s.len() > 0 && forall|i: int| 0 <= i < s.len() ==> '0' <= #[trigger] s[i] <= '9'
}

spec fn value_on(s: Seq<char>, acc: int) -> int
    decreases s.len(),
{
    if s.len() == 0 {
        acc
    } else {
        value_on(s.drop_first(), acc * 10 + (s[0] as int - '0' as int))
    }
}

proof fn lemma_value_on_last(s: Seq<char>, acc: int)
    requires
        s.len() > 0,
    ensures
        value_on(s, acc) == value_on(s.drop_last(), acc) * 10 + (s.last() as int - '0' as int),
    decreases s.len(),
{
    let next = acc * 10 + (s[0] as int - '0' as int);
    if s.len() > 1 {
        lemma_value_on_last(s.drop_first(), next);
        assert(s.drop_first().drop_last() =~= s.drop_last().drop_first());
        assert(s.drop_last()[0] == s[0]);
    } else {
        assert(value_on(s.drop_first(), next) == next);
        assert(s.drop_last().len() == 0);
    }
}

proof fn lemma_value_on_is_value(s: Seq<char>)
    requires
        forall|i: int| 0 <= i < s.len() ==> '0' <= #[trigger] s[i] <= '9',
    ensures
        value_on(s, 0) == run_value(s),
    decreases s.len(),
{
    if s.len() > 0 {
        lemma_value_on_last(s, 0);
        lemma_value_on_is_value(s.drop_last());
    }
}

proof fn lemma_read_digits(s: Seq<char>, acc: int)
    requires
        forall|i: int| 0 <= i < s.len() ==> '0' <= #[trigger] s[i] <= '9',
        acc >= 0,
    ensures
        value_on(s, acc) >= acc,
        acc <= i64::MAX ==> text::read_digits(s, acc, false) == (if value_on(s, acc) <= i64::MAX {
            Ok::<int, text::IntFault>(value_on(s, acc))
        } else {
            Err(text::IntFault::TooLarge)
        }),
        acc <= 0x8000_0000_0000_0000 ==> text::read_digits(s, -acc, true) == (if value_on(s, acc) <= 0x8000_0000_0000_0000 {
            Ok::<int, text::IntFault>(-value_on(s, acc))
        } else {
            Err(text::IntFault::TooSmall)
        }),
    decreases s.len(),
{
    if s.len() > 0 {
        let d = s[0] as int - '0' as int;
        lemma_read_digits(s.drop_first(), acc * 10 + d);
        assert(text::digit_value(s[0]) == d);
        assert((-acc) * 10 - d == -(acc * 10 + d));
    }
}

/// Law: digits read as the number they stand for, with a sign or without, where
/// it fits; where it does not, they are refused as too large or too small.
pub proof fn law_whole_numbers_are_read_by_value(d: Seq<char>)
    requires
        all_digits(d),
    ensures
        run_value(d) <= i64::MAX ==> text::read_int(d) == Ok::<int, text::IntFault>(run_value(d) as int) && text::read_int(
            seq!['+'] + d,
        ) == Ok::<int, text::IntFault>(run_value(d) as int),
        run_value(d) > i64::MAX ==> text::read_int(d) == Err::<int, text::IntFault>(text::IntFault::TooLarge)
            && text::read_int(seq!['+'] + d) == Err::<int, text::IntFault>(text::IntFault::TooLarge),
        run_value(d) <= 0x8000_0000_0000_0000 ==> text::read_int(seq!['-'] + d) == Ok::<int, text::IntFault>(-run_value(d)),
        run_value(d) > 0x8000_0000_0000_0000 ==> text::read_int(seq!['-'] + d) == Err::<int, text::IntFault>(
            text::IntFault::TooSmall,
        ),
{
    lemma_value_on_is_value(d);
    lemma_read_digits(d, 0);
    assert((seq!['+'] + d).drop_first() =~= d);
    assert((seq!['-'] + d).drop_first() =~= d);
}

proof fn lemma_only_digits_read(s: Seq<char>, acc: int, neg: bool)
    ensures
        text::read_digits(s, acc, neg) is Ok ==> forall|i: int| 0 <= i < s.len() ==> '0' <= #[trigger] s[i] <= '9',
    decreases s.len(),
{
    if s.len() > 0 && text::read_digits(s, acc, neg) is Ok {
        let next = if neg {
            acc * 10 - text::digit_value(s[0])
        } else {
            acc * 10 + text::digit_value(s[0])
        };
        let t = s.drop_first();
        lemma_only_digits_read(t, next, neg);
        assert forall|i: int| 0 <= i < s.len() implies '0' <= #[trigger] s[i] <= '9' by {
            if i > 0 {
                assert(s[i] == t[i - 1]);
            }
        }
    }
}

/// Law: only digits, with at most a sign before them, read as a whole number.
pub proof fn law_only_whole_numbers_are_read(s: Seq<char>)
    requires
        text::read_int(s) is Ok,
    ensures
        all_digits(s) || ((s[0] == '+' || s[0] == '-') && all_digits(s.drop_first())),
{
    lemma_only_digits_read(s, 0, false);
    lemma_only_digits_read(s.drop_first(), 0, false);
    lemma_only_digits_read(s.drop_first(), 0, true);
}

/// Law: a whole number is read back from its text.
pub proof fn law_written_number_reads_back(i: int)
    requires
        i64::MIN <= i <= i64::MAX,
    ensures
        text::read_int(text::dec_int(i)) == Ok::<int, text::IntFault>(i),
{
    let n = if i < 0 {
        (-i) as nat
    } else {
        i as nat
    };
    lemma_dec_digits(n);
    law_whole_numbers_are_read_by_value(text::dec(n));
}

proof fn lemma_zeros(k: nat, d: Seq<char>)
    requires
        forall|i: int| 0 <= i < d.len() ==> '0' <= #[trigger] d[i] <= '9',
    ensures
        run_value(Seq::new(k, |i: int| '0') + d) == run_value(d),
    decreases d.len(), k,
{
    let z = Seq::new(k, |i: int| '0');
    if d.len() > 0 {
        assert((z + d).drop_last() =~= z + d.drop_last());
        lemma_zeros(k, d.drop_last());
    } else if k > 0 {
        assert((z + d).drop_last() =~= Seq::new((k - 1) as nat, |i: int| '0') + d);
        lemma_zeros((k - 1) as nat, d);
        assert(run_value(d) == 0);
    } else {
        assert(z + d =~= d);
    }
}

/// Law: padding with zeros keeps the number and gives it at least the width; a
/// number that has the width stays as it is.
pub proof fn law_padding_keeps_the_number(n: nat, width: nat)
    ensures
        all_digits(text::dec_padded(n, width)),
        run_value(text::dec_padded(n, width)) == n,
        text::dec_padded(n, width).len() >= width,
        text::dec(n).len() >= width ==> text::dec_padded(n, width) == text::dec(n),
        text::dec(n).len() < width ==> text::dec_padded(n, width).len() == width,
{
    lemma_dec_digits(n);
    if text::dec(n).len() < width {
        lemma_zeros((width - text::dec(n).len()) as nat, text::dec(n));
    }
}

/// Digits read as a numeral, whatever follows that is no digit.
pub proof fn lemma_digits_read(d: Seq<char>, rest: Seq<char>)
    requires
        all_digits(d),
        no_digit(rest),
    ensures
        numeral_at(d + rest) == Some((run_value(d), rest)),
{
    lemma_run_len(d, rest);
    assert((d + rest).take(d.len() as int) =~= d);
    assert((d + rest).skip(d.len() as int) =~= rest);
}

} // verus!
