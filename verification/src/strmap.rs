//! A map keyed by text, iterated in the order of its keys.

use vstd::prelude::*;

use crate::text::{is_less, same};
use crate::text;
use crate::views;

verus! {

/// The entries of a map in key order.
pub type Pairs<V> = Seq<(Seq<char>, V)>;

/// The keys ascend strictly.
pub open spec fn ordered<V>(p: Pairs<V>) -> bool {
    forall|i: int, j: int| 0 <= i < j < p.len() ==> text::less(#[trigger] p[i].0, #[trigger] p[j].0)
}

/// The value stored under `k`.
pub open spec fn at<V>(p: Pairs<V>, k: Seq<char>) -> Option<V>
    decreases p.len(),
{
    if p.len() == 0 {
        None
    } else if p.last().0 == k {
        Some(p.last().1)
    } else {
        at(p.drop_last(), k)
    }
}

/// The entries as a mathematical map.
pub open spec fn dict<V>(p: Pairs<V>) -> Map<Seq<char>, V> {
    Map::new(|k: Seq<char>| at(p, k) is Some, |k: Seq<char>| at(p, k)->0)
}

/// Looking a key up in the entries and in the map is the same.
pub proof fn lemma_dict<V>(p: Pairs<V>, k: Seq<char>)
    ensures
        at(p, k) == (if dict(p).dom().contains(k) {
            Some(dict(p)[k])
        } else {
            None
        }),
{
}

/// The number of keys from position `i` on that lie below `k`, plus `i`.
pub open spec fn rank_from<V>(p: Pairs<V>, k: Seq<char>, i: int) -> int
    decreases p.len() - i,
{
    if i < 0 || i >= p.len() || !text::less(p[i].0, k) {
        i
    } else {
        rank_from(p, k, i + 1)
    }
}

/// Where `k` stands, or would stand, among the keys.
pub open spec fn rank<V>(p: Pairs<V>, k: Seq<char>) -> int {
    rank_from(p, k, 0)
}

/// `p` with `v` stored under `k`.
pub open spec fn put<V>(p: Pairs<V>, k: Seq<char>, v: V) -> Pairs<V> {
    let r = rank(p, k);
    if r < p.len() && p[r].0 == k {
        p.update(r, (k, v))
    } else {
        p.insert(r, (k, v))
    }
}

/// `p` without `k`.
pub open spec fn cut<V>(p: Pairs<V>, k: Seq<char>) -> Pairs<V> {
    let r = rank(p, k);
    if r < p.len() && p[r].0 == k {
        p.remove(r)
    } else {
        p
    }
}

/// The keys in order.
pub open spec fn keys_of<V>(p: Pairs<V>) -> Seq<Seq<char>> {
    p.map_values(|e: (Seq<char>, V)| e.0)
}

pub proof fn lemma_rank_from<V>(p: Pairs<V>, k: Seq<char>, i: int)
    requires
        0 <= i <= p.len(),
    ensures
        i <= rank_from(p, k, i) <= p.len(),
        forall|j: int| i <= j < rank_from(p, k, i) ==> text::less(#[trigger] p[j].0, k),
        rank_from(p, k, i) < p.len() ==> !text::less(p[rank_from(p, k, i)].0, k),
    decreases p.len() - i,
{
    if i < p.len() && text::less(p[i].0, k) {
        lemma_rank_from(p, k, i + 1);
    }
}

pub proof fn lemma_at_index<V>(p: Pairs<V>, i: int)
    requires
        ordered(p),
        0 <= i < p.len(),
    ensures
        at(p, p[i].0) == Some(p[i].1),
    decreases p.len(),
{
    if i < p.len() - 1 {
        text::lemma_less_irreflexive(p[i].0);
        assert(text::less(p[i].0, p[p.len() - 1].0));
        assert(p.drop_last()[i] == p[i]);
        lemma_at_index(p.drop_last(), i);
    }
}

pub proof fn lemma_at_absent<V>(p: Pairs<V>, k: Seq<char>)
    requires
        forall|i: int| 0 <= i < p.len() ==> #[trigger] p[i].0 != k,
    ensures
        at(p, k) is None,
    decreases p.len(),
{
    if p.len() > 0 {
        assert(p[p.len() - 1].0 != k);
        assert forall|i: int| 0 <= i < p.drop_last().len() implies #[trigger] p.drop_last()[i].0 != k by {
            assert(p.drop_last()[i] == p[i]);
        }
        lemma_at_absent(p.drop_last(), k);
    }
}

/// A stored key has a position.
pub proof fn lemma_at_some<V>(p: Pairs<V>, k: Seq<char>) -> (i: int)
    requires
        at(p, k) is Some,
    ensures
        0 <= i < p.len(),
        p[i].0 == k,
        at(p, k) == Some(p[i].1),
    decreases p.len(),
{
    if p.last().0 == k {
        p.len() - 1
    } else {
        let i = lemma_at_some(p.drop_last(), k);
        assert(p.drop_last()[i] == p[i]);
        i
    }
}

/// What the rank of a key says about whether it is stored.
pub proof fn lemma_rank<V>(p: Pairs<V>, k: Seq<char>)
    requires
        ordered(p),
    ensures
        0 <= rank(p, k) <= p.len(),
        forall|j: int| 0 <= j < rank(p, k) ==> text::less(#[trigger] p[j].0, k),
        forall|j: int|
            rank(p, k) <= j < p.len() && !(j == rank(p, k) && p[j].0 == k) ==> text::less(
                k,
                #[trigger] p[j].0,
            ),
        at(p, k) is Some <==> (rank(p, k) < p.len() && p[rank(p, k)].0 == k),
        at(p, k) matches Some(v) ==> v == p[rank(p, k)].1,
{
    let r = rank(p, k);
    lemma_rank_from(p, k, 0);
    assert forall|j: int| r <= j < p.len() && !(j == r && p[j].0 == k) implies text::less(
        k,
        #[trigger] p[j].0,
    ) by {
        text::lemma_less_total(p[r].0, k);
        if j > r {
            assert(text::less(p[r].0, p[j].0));
            if p[r].0 != k {
                text::lemma_less_transitive(k, p[r].0, p[j].0);
            }
        }
    }
    if r < p.len() && p[r].0 == k {
        lemma_at_index(p, r);
    } else {
        text::lemma_less_irreflexive(k);
        assert forall|i: int| 0 <= i < p.len() implies #[trigger] p[i].0 != k by {
            if i < r {
                assert(text::less(p[i].0, k));
            } else {
                assert(text::less(k, p[i].0));
            }
        }
        lemma_at_absent(p, k);
    }
}

/// Storing keeps the keys ordered and changes the one entry.
pub proof fn lemma_put<V>(p: Pairs<V>, k: Seq<char>, v: V)
    requires
        ordered(p),
    ensures
        ordered(put(p, k, v)),
        dict(put(p, k, v)) == dict(p).insert(k, v),
{
    let r = rank(p, k);
    let q = put(p, k, v);
    lemma_rank(p, k);
    assert forall|i: int, j: int| 0 <= i < j < q.len() implies text::less(
        #[trigger] q[i].0,
        #[trigger] q[j].0,
    ) by {
        let hit = r < p.len() && p[r].0 == k;
        let a = if hit || i <= r {
            i
        } else {
            i - 1
        };
        let b = if hit || j <= r {
            j
        } else {
            j - 1
        };
        if i == r {
            assert(q[i].0 == k);
            assert(q[j].0 == p[b].0);
            assert(text::less(k, p[b].0));
        } else if j == r {
            assert(q[j].0 == k);
            assert(q[i].0 == p[a].0);
        } else {
            assert(q[i].0 == p[a].0);
            assert(q[j].0 == p[b].0);
            assert(text::less(p[a].0, p[b].0));
        }
    }
    assert forall|x: Seq<char>| #[trigger] at(q, x) == (if x == k {
        Some(v)
    } else {
        at(p, x)
    }) by {
        if x == k {
            assert(q[r].0 == k);
            lemma_at_index(q, r);
        } else if at(p, x) is Some {
            let i = lemma_at_some(p, x);
            let hit = r < p.len() && p[r].0 == k;
            let m = if hit || i < r {
                i
            } else {
                i + 1
            };
            assert(q[m] == p[i]);
            lemma_at_index(q, m);
        } else {
            if at(q, x) is Some {
                let m = lemma_at_some(q, x);
                let hit = r < p.len() && p[r].0 == k;
                let i = if hit || m <= r {
                    m
                } else {
                    m - 1
                };
                assert(p[i].0 == x);
                lemma_at_index(p, i);
            }
        }
    }
    assert(dict(q) =~= dict(p).insert(k, v));
}

/// Storing at the end of a list in key order appends.
pub proof fn lemma_put_last<V>(p: Pairs<V>, k: Seq<char>, v: V)
    requires
        ordered(p),
        forall|i: int| 0 <= i < p.len() ==> text::less(#[trigger] p[i].0, k),
    ensures
        put(p, k, v) == p.push((k, v)),
{
    lemma_rank(p, k);
    let r = rank(p, k);
    if r < p.len() {
        text::lemma_less_irreflexive(k);
        assert(text::less(p[r].0, k));
        if p[r].0 != k {
            assert(text::less(k, p[r].0));
            text::lemma_less_transitive(k, p[r].0, k);
        }
    }
    assert(put(p, k, v) =~= p.push((k, v)));
}

/// Removing keeps the keys ordered and drops the one entry.
pub proof fn lemma_cut<V>(p: Pairs<V>, k: Seq<char>)
    requires
        ordered(p),
    ensures
        ordered(cut(p, k)),
        dict(cut(p, k)) == dict(p).remove(k),
{
    let r = rank(p, k);
    let q = cut(p, k);
    lemma_rank(p, k);
    if r < p.len() && p[r].0 == k {
        assert forall|i: int, j: int| 0 <= i < j < q.len() implies text::less(
            #[trigger] q[i].0,
            #[trigger] q[j].0,
        ) by {
            let a = if i < r {
                i
            } else {
                i + 1
            };
            let b = if j < r {
                j
            } else {
                j + 1
            };
            assert(q[i] == p[a]);
            assert(q[j] == p[b]);
            assert(text::less(p[a].0, p[b].0));
        }
        assert forall|x: Seq<char>| #[trigger] at(q, x) == (if x == k {
            None
        } else {
            at(p, x)
        }) by {
            if at(q, x) is Some {
                let i = lemma_at_some(q, x);
                let a = if i < r {
                    i
                } else {
                    i + 1
                };
                assert(q[i] == p[a]);
                lemma_at_index(p, a);
                text::lemma_less_irreflexive(k);
                if a < r {
                    assert(text::less(p[a].0, p[r].0));
                } else {
                    assert(text::less(p[r].0, p[a].0));
                }
            } else if x != k && at(p, x) is Some {
                let i = lemma_at_some(p, x);
                let m = if i < r {
                    i
                } else {
                    i - 1
                };
                assert(q[m] == p[i]);
                lemma_at_index(q, m);
            }
        }
    }
    assert(dict(q) =~= dict(p).remove(k));
}

/// Law: the order of the entries is fixed by what is stored, so two maps that
/// hold the same values under the same keys are walked in the same order.
pub proof fn law_order_is_canonical<V>(p: Pairs<V>, q: Pairs<V>)
    requires
        ordered(p),
        ordered(q),
        dict(p) == dict(q),
    ensures
        p == q,
    decreases p.len(),
{
    assert forall|k: Seq<char>| #[trigger] at(p, k) == at(q, k) by {
        lemma_dict(p, k);
        lemma_dict(q, k);
    }
    if p.len() == 0 {
        if q.len() > 0 {
            lemma_at_index(q, 0);
            assert(at(p, q[0].0) is None);
        }
        assert(p =~= q);
    } else if q.len() == 0 {
        lemma_at_index(p, 0);
        assert(at(q, p[0].0) is None);
    } else {
        let a = p.last().0;
        let b = q.last().0;
        lemma_at_index(p, p.len() - 1);
        lemma_at_index(q, q.len() - 1);
        let i = lemma_at_some(q, a);
        let j = lemma_at_some(p, b);
        if a != b {
            assert(text::less(q[i].0, q[q.len() - 1].0));
            assert(text::less(p[j].0, p[p.len() - 1].0));
            text::lemma_less_transitive(a, b, a);
            text::lemma_less_irreflexive(a);
        }
        let p1 = p.drop_last();
        let q1 = q.drop_last();
        assert forall|x: int, y: int| 0 <= x < y < p1.len() implies text::less(
            #[trigger] p1[x].0,
            #[trigger] p1[y].0,
        ) by {
            assert(p1[x] == p[x] && p1[y] == p[y]);
        }
        assert forall|x: int, y: int| 0 <= x < y < q1.len() implies text::less(
            #[trigger] q1[x].0,
            #[trigger] q1[y].0,
        ) by {
            assert(q1[x] == q[x] && q1[y] == q[y]);
        }
        assert(at(p1, a) is None) by {
            if at(p1, a) is Some {
                let x = lemma_at_some(p1, a);
                assert(p1[x] == p[x]);
                assert(text::less(p[x].0, p[p.len() - 1].0));
                text::lemma_less_irreflexive(a);
            }
        }
        assert(at(q1, a) is None) by {
            if at(q1, a) is Some {
                let x = lemma_at_some(q1, a);
                assert(q1[x] == q[x]);
                assert(text::less(q[x].0, q[q.len() - 1].0));
                text::lemma_less_irreflexive(a);
            }
        }
        assert forall|k: Seq<char>| #[trigger] at(p1, k) == at(q1, k) by {
            assert(at(p, k) == at(q, k));
        }
        assert(dict(p1) =~= dict(q1));
        law_order_is_canonical(p1, q1);
        assert(p =~= p1.push(p.last()));
        assert(q =~= q1.push(q.last()));
        assert(at(p, a) == at(q, a));
    }
}

/// A value that can be copied without changing what it stands for.
pub trait Duplicate: View + Sized {
    fn duplicate(&self) -> (out: Self)
        ensures
            out@ == self@,
    ;
}

impl Duplicate for String {
    fn duplicate(&self) -> (out: String) {
        self.clone()
    }
}

/// A map from text to `V`.
#[derive(Debug)]
pub struct StrMap<V: View> {
    entries: Vec<(String, V)>,
}

/// What one entry stands for.
pub open spec fn entry_view<V: View>(e: (String, V)) -> (Seq<char>, V::V) {
    (e.0@, e.1@)
}

/// What a list of entries stands for.
pub open spec fn entries_view<V: View>(entries: Seq<(String, V)>) -> Pairs<V::V> {
    entries.map_values(|e: (String, V)| entry_view(e))
}

fn rank_in<V: View>(entries: &Vec<(String, V)>, key: &str) -> (out: usize)
    ensures
        out == rank(entries_view(entries@), key@),
        out <= entries@.len(),
{
    let mut i: usize = 0;
    while i < entries.len() && is_less(entries[i].0.as_str(), key)
        invariant
            i <= entries@.len(),
            rank(entries_view(entries@), key@) == rank_from(entries_view(entries@), key@, i as int),
        decreases entries.len() - i,
    {
        i += 1;
    }
    i
}

/// Stores a value in a list of entries with ascending keys.
pub fn put_entry<V: View>(entries: &mut Vec<(String, V)>, key: String, value: V)
    requires
        ordered(entries_view(old(entries)@)),
    ensures
        entries_view(final(entries)@) == put(entries_view(old(entries)@), key@, value@),
        ordered(entries_view(final(entries)@)),
        dict(entries_view(final(entries)@)) == dict(entries_view(old(entries)@)).insert(key@, value@),
{
    let ghost before = entries_view(entries@);
    proof {
        lemma_rank(before, key@);
        lemma_put(before, key@, value@);
    }
    let r = rank_in(entries, key.as_str());
    if r < entries.len() && same(entries[r].0.as_str(), key.as_str()) {
        entries.remove(r);
    }
    entries.insert(r, (key, value));
    assert(entries_view(entries@) =~= put(before, key@, value@));
}

impl<V: View> View for StrMap<V> {
    type V = Pairs<V::V>;

    /// The entries in key order.
    closed spec fn view(&self) -> Pairs<V::V> {
        entries_view(self.entries@)
    }
}

impl<V: View> StrMap<V> {
    #[verifier::type_invariant]
    spec fn keys_ascend(self) -> bool {
        ordered(self@)
    }

    pub fn new() -> (out: Self)
        ensures
            out@ == Seq::<(Seq<char>, V::V)>::empty(),
            ordered(out@),
    {
        let out = StrMap { entries: Vec::new() };
        assert(out@ =~= Seq::<(Seq<char>, V::V)>::empty());
        out
    }

    pub fn len(&self) -> (out: usize)
        ensures
            out == self@.len(),
            ordered(self@),
    {
        proof {
            use_type_invariant(self);
        }
        self.entries.len()
    }

    pub fn key_at(&self, i: usize) -> (out: &str)
        requires
            i < self@.len(),
        ensures
            out@ == self@[i as int].0,
    {
        self.entries[i].0.as_str()
    }

    pub fn value_at(&self, i: usize) -> (out: &V)
        requires
            i < self@.len(),
        ensures
            out@ == self@[i as int].1,
    {
        &self.entries[i].1
    }

    pub fn get(&self, key: &str) -> (out: Option<&V>)
        ensures
            ordered(self@),
            at(self@, key@) == views::opt(out),
    {
        proof {
            use_type_invariant(self);
            lemma_rank(self@, key@);
        }
        let r = rank_in(&self.entries, key);
        if r < self.entries.len() && same(self.entries[r].0.as_str(), key) {
            Some(&self.entries[r].1)
        } else {
            None
        }
    }

    pub fn contains_key(&self, key: &str) -> (out: bool)
        ensures
            out == at(self@, key@) is Some,
            ordered(self@),
    {
        self.get(key).is_some()
    }

    pub fn insert(&mut self, key: String, value: V)
        ensures
            final(self)@ == put(old(self)@, key@, value@),
            ordered(final(self)@),
            dict(final(self)@) == dict(old(self)@).insert(key@, value@),
    {
        proof {
            use_type_invariant(&*self);
        }
        let mut fresh: StrMap<V> = StrMap::new();
        std::mem::swap(&mut fresh, self);
        let mut entries = fresh.entries;
        put_entry(&mut entries, key, value);
        *self = StrMap { entries };
    }

    pub fn remove(&mut self, key: &str) -> (out: Option<V>)
        ensures
            at(old(self)@, key@) == views::opt(out),
            final(self)@ == cut(old(self)@, key@),
            out is None ==> final(self)@ == old(self)@,
            ordered(old(self)@),
            ordered(final(self)@),
            dict(final(self)@) == dict(old(self)@).remove(key@),
    {
        proof {
            use_type_invariant(&*self);
            lemma_rank(self@, key@);
            lemma_cut(self@, key@);
        }
        let r = rank_in(&self.entries, key);
        if r < self.entries.len() && same(self.entries[r].0.as_str(), key) {
            let mut fresh: StrMap<V> = StrMap::new();
            std::mem::swap(&mut fresh, self);
            let ghost before = fresh@;
            let mut entries = fresh.entries;
            let e = entries.remove(r);
            assert(entries_view(entries@) =~= cut(before, key@));
            *self = StrMap { entries };
            Some(e.1)
        } else {
            None
        }
    }

    /// The keys in order.
    pub fn keys(&self) -> (out: Vec<String>)
        ensures
            text::views(out@) == keys_of(self@),
            ordered(self@),
    {
        proof {
            use_type_invariant(self);
        }
        let mut out: Vec<String> = Vec::new();
        let mut i: usize = 0;
        while i < self.entries.len()
            invariant
                i <= self.entries@.len(),
                text::views(out@) == keys_of(self@).take(i as int),
            decreases self.entries.len() - i,
        {
            let k = self.entries[i].0.clone();
            let ghost before = text::views(out@);
            out.push(k);
            assert(text::views(out@) =~= before.push(k@));
            assert(keys_of(self@).take(i + 1) =~= keys_of(self@).take(i as int).push(k@));
            i += 1;
        }
        assert(keys_of(self@).take(i as int) =~= keys_of(self@));
        out
    }
}

impl<V: Duplicate> Clone for StrMap<V> {
    fn clone(&self) -> (out: Self)
        ensures
            out@ == self@,
    {
        proof {
            use_type_invariant(self);
        }
        let mut entries: Vec<(String, V)> = Vec::new();
        let mut i: usize = 0;
        while i < self.entries.len()
            invariant
                i <= self.entries@.len(),
                entries_view(entries@) == self@.take(i as int),
            decreases self.entries.len() - i,
        {
            let e = (self.entries[i].0.clone(), self.entries[i].1.duplicate());
            let ghost before = entries_view(entries@);
            entries.push(e);
            assert(entries_view(entries@) =~= before.push(entry_view(e)));
            assert(self@.take(i + 1) =~= self@.take(i as int).push(self@[i as int]));
            i += 1;
        }
        assert(self@.take(i as int) =~= self@);
        StrMap { entries }
    }
}

} // verus!
