//! Row router: distributes ETL output rows to one of `n` parallel writers.
//!
//! * Rows destined for the job's main target table are routed by primary-key
//!   hash, so updates to the same key always land on the same writer (keeps
//!   upsert ordering well-defined while optimising for parallelism).
//! * Rows for any other table (e.g. detail tables produced by a splitter) and
//!   rows without a primary key are load-balanced round-robin.

use std::collections::hash_map::DefaultHasher;
use std::hash::Hasher;

use vstd::bytes::u64_to_le_bytes;
use vstd::prelude::*;
use vstd::std_specs::hash::DefaultHasherAdditionalSpecFns;

use crate::float;
use crate::model::{Cells, Row, Val, Value};
use crate::sql;
use crate::strmap;
use crate::text;
use crate::text::same;

verus! {

/// The unsigned number with the same 64 bits.
pub open spec fn same_bits(i: i64) -> u64 {
    if i >= 0 {
        i as u64
    } else {
        (i + 0x1_0000_0000_0000_0000) as u64
    }
}

fn bits_of(i: i64) -> (out: u64)
    ensures
        out == same_bits(i),
{
    if i >= 0 {
        i as u64
    } else {
        0x8000_0000_0000_0000u64 + (i - i64::MIN) as u64
    }
}

/// What a column's value adds to the hash.
pub open spec fn digest(v: Option<Val>) -> Seq<u8> {
    match v {
        None => seq![0x00u8],
        Some(Val::Null) => seq![0x01u8],
        Some(Val::Bool(b)) => if b {
            seq![2u8]
        } else {
            seq![3u8]
        },
        Some(Val::Int(i)) => vstd::bytes::spec_u64_to_le_bytes(same_bits(i)),
        Some(Val::UInt(u)) => vstd::bytes::spec_u64_to_le_bytes(u),
        Some(Val::Float(f)) => vstd::bytes::spec_u64_to_le_bytes(f.bits),
        Some(Val::Decimal(s)) => vstd::utf8::encode_utf8(s),
        Some(Val::String(s)) => vstd::utf8::encode_utf8(s),
        Some(Val::Date(s)) => vstd::utf8::encode_utf8(s),
        Some(Val::Bytes(b)) => b,
    }
}

/// What is hashed: for each key column its name, a mark, its value and a mark.
pub open spec fn hashed(row: Cells, pk: Seq<Seq<char>>) -> Seq<Seq<u8>>
    decreases pk.len(),
{
    if pk.len() == 0 {
        Seq::empty()
    } else {
        hashed(row, pk.drop_last()).push(vstd::utf8::encode_utf8(pk.last())).push(seq![0xFFu8]).push(
            digest(strmap::at(row, pk.last())),
        ).push(seq![0xFEu8])
    }
}

/// The hash of the values at the key columns.
pub open spec fn key_hash(row: Cells, pk: Seq<Seq<char>>) -> u64 {
    DefaultHasher::spec_finish(hashed(row, pk))
}

fn write_byte(h: &mut DefaultHasher, b: u8)
    ensures
        final(h)@ == old(h)@.push(seq![b]),
{
    let v: Vec<u8> = vec![b];
    assert(v@ =~= seq![b]);
    h.write(v.as_slice());
}

fn write_word(h: &mut DefaultHasher, n: u64)
    ensures
        final(h)@ == old(h)@.push(vstd::bytes::spec_u64_to_le_bytes(n)),
{
    let v = u64_to_le_bytes(n);
    h.write(v.as_slice());
}

/// Deterministic hash of the values at `pk` columns.
pub fn hash_row(row: &Row, pk: &Vec<String>) -> (out: u64)
    ensures
        out == key_hash(row@, text::views(pk@)),
{
    let ghost names = text::views(pk@);
    let mut h = DefaultHasher::new();
    let mut i: usize = 0;
    assert(names.take(0) =~= Seq::<Seq<char>>::empty());
    while i < pk.len()
        invariant
            i <= pk.len(),
            names == text::views(pk@),
            h@ == hashed(row@, names.take(i as int)),
        decreases pk.len() - i,
    {
        assert(names.take(i + 1).drop_last() =~= names.take(i as int));
        assert(names.take(i + 1).last() == pk@[i as int]@);
        h.write(pk[i].as_str().as_bytes());
        write_byte(&mut h, 0xFF);
        match row.get(pk[i].as_str()) {
            None => write_byte(&mut h, 0x00),
            Some(Value::Null) => write_byte(&mut h, 0x01),
            Some(Value::Bool(b)) => write_byte(
                &mut h,
                if *b {
                    2
                } else {
                    3
                },
            ),
            Some(Value::Int(n)) => write_word(&mut h, bits_of(*n)),
            Some(Value::UInt(n)) => write_word(&mut h, *n),
            Some(Value::Float(f)) => write_word(&mut h, f.bits),
            Some(Value::Decimal(s)) => h.write(s.as_str().as_bytes()),
            Some(Value::String(s)) => h.write(s.as_str().as_bytes()),
            Some(Value::Date(s)) => h.write(s.as_str().as_bytes()),
            Some(Value::Bytes(b)) => h.write(b.as_slice()),
        }
        write_byte(&mut h, 0xFE);
        i += 1;
    }
    assert(names.take(i as int) =~= names);
    h.finish()
}

/// Chooses a writer for each row.
#[derive(Debug)]
pub struct Router {
    n: usize,
    main_table: String,
    main_pk: Vec<String>,
    round: usize,
}

/// What a [`Router`] goes by.
#[verifier::ext_equal]
pub struct RouterV {
    /// The number of writers.
    pub n: nat,
    pub main_table: Seq<char>,
    pub main_pk: Seq<Seq<char>>,
    /// How many rows were balanced so far.
    pub round: nat,
}

impl View for Router {
    type V = RouterV;

    closed spec fn view(&self) -> RouterV {
        RouterV {
            n: self.n as nat,
            main_table: self.main_table@,
            main_pk: text::views(self.main_pk@),
            round: self.round as nat,
        }
    }
}

impl RouterV {
    /// Whether rows of a table are routed by their key.
    pub open spec fn keyed(self, table: Seq<char>) -> bool {
        table == self.main_table && self.main_pk.len() > 0
    }

    /// The writer that receives a row.
    pub open spec fn writer(self, table: Seq<char>, row: Cells) -> int {
        if self.n <= 1 {
            0
        } else if self.keyed(table) {
            (key_hash(row, self.main_pk) as int % (usize::MAX + 1)) % self.n as int
        } else {
            self.round as int % self.n as int
        }
    }

    /// The router once a row of a table was routed.
    pub open spec fn after(self, table: Seq<char>) -> RouterV {
        if self.n <= 1 || self.keyed(table) {
            self
        } else {
            RouterV { round: ((self.round as int + 1) % (usize::MAX + 1)) as nat, ..self }
        }
    }
}

impl Router {
    #[verifier::type_invariant]
    spec fn has_writer(self) -> bool {
        self.n >= 1
    }

    pub fn new(n: usize, main_table: String, main_pk: Vec<String>) -> (out: Router)
        ensures
            out@ == (RouterV {
                n: if n < 1 {
                    1
                } else {
                    n as nat
                },
                main_table: main_table@,
                main_pk: text::views(main_pk@),
                round: 0,
            }),
    {
        Router {
            n: if n < 1 {
                1
            } else {
                n
            },
            main_table,
            main_pk,
            round: 0,
        }
    }

    /// Which writer (`0..n`) receives this row?
    pub fn route(&mut self, table: &str, row: &Row) -> (out: usize)
        ensures
            out == old(self)@.writer(table@, row@),
            out < old(self)@.n,
            final(self)@ == old(self)@.after(table@),
    {
        proof {
            use_type_invariant(&*self);
        }
        if self.n <= 1 {
            return 0;
        }
        if same(table, self.main_table.as_str()) && self.main_pk.len() > 0 {
            let h = hash_row(row, &self.main_pk);
            let w = (h as u128 % (usize::MAX as u128 + 1)) as usize;
            w % self.n
        } else {
            let r = self.round;
            self.round = if r == usize::MAX {
                0
            } else {
                r + 1
            };
            r % self.n
        }
    }
}

proof fn lemma_hash_by_key(a: Cells, b: Cells, pk: Seq<Seq<char>>)
    requires
        forall|i: int| 0 <= i < pk.len() ==> strmap::at(a, #[trigger] pk[i]) == strmap::at(b, pk[i]),
    ensures
        hashed(a, pk) == hashed(b, pk),
    decreases pk.len(),
{
    if pk.len() > 0 {
        assert forall|i: int| 0 <= i < pk.drop_last().len() implies strmap::at(a, #[trigger] pk.drop_last()[i])
            == strmap::at(b, pk.drop_last()[i]) by {
            assert(pk.drop_last()[i] == pk[i]);
        }
        lemma_hash_by_key(a, b, pk.drop_last());
        assert(pk[pk.len() - 1] == pk.last());
    }
}

/// Law: rows of the main table with the same key values go to the same writer,
/// whatever was routed in between and whatever else the rows hold.
pub proof fn law_same_key_same_writer(r: RouterV, s: RouterV, a: Cells, b: Cells)
    requires
        r.n == s.n,
        r.main_table == s.main_table,
        r.main_pk == s.main_pk,
        r.main_pk.len() > 0,
        forall|i: int| 0 <= i < r.main_pk.len() ==> strmap::at(a, #[trigger] r.main_pk[i]) == strmap::at(b, r.main_pk[i]),
    ensures
        r.writer(r.main_table, a) == s.writer(r.main_table, b),
{
    lemma_hash_by_key(a, b, r.main_pk);
}

/// Law: with `n` writers, any `n` balanced rows in a row go to `n` different
/// writers, up to the point where the counter starts again.
pub proof fn law_round_robin_takes_turns(r: RouterV, i: nat, j: nat, table: Seq<char>, row: Cells)
    requires
        r.n > 1,
        !r.keyed(table),
        i < j < i + r.n,
    ensures
        (RouterV { round: i, ..r }).writer(table, row) != (RouterV { round: j, ..r }).writer(table, row),
{
    let n = r.n as int;
    let a = i as int;
    let b = j as int;
    if a % n == b % n {
        vstd::arithmetic::div_mod::lemma_fundamental_div_mod(a, n);
        vstd::arithmetic::div_mod::lemma_fundamental_div_mod(b, n);
        assert(false) by (nonlinear_arith)
            requires
                a == n * (a / n) + a % n,
                b == n * (b / n) + b % n,
                a % n == b % n,
                0 < b - a < n,
        ;
    }
}

// ---------------------------------------------------------------------------
// What routing does
// ---------------------------------------------------------------------------

/// Law: a row goes to one of the writers; where there is one, to that.
pub proof fn law_row_goes_to_a_writer(r: RouterV, table: Seq<char>, row: Cells)
    requires
        r.n >= 1,
    ensures
        0 <= r.writer(table, row) < r.n,
{
}

/// Law: a row of the main table goes by its key alone and takes no turn; any other
/// row takes one, and the next such row goes to the next writer, from the last back
/// to the first.
pub proof fn law_rows_without_a_key_go_round(r: RouterV, table: Seq<char>, row: Cells, next: Cells)
    requires
        r.n > 1,
        r.round < usize::MAX,
    ensures
        r.keyed(table) <==> table == r.main_table && r.main_pk.len() > 0,
        r.keyed(table) ==> r.after(table) == r,
        !r.keyed(table) ==> r.after(table).writer(table, next) == (if r.writer(table, row) == r.n - 1 {
            0
        } else {
            r.writer(table, row) + 1
        }),
        r.after(table).n == r.n && r.after(table).main_table == r.main_table && r.after(table).main_pk == r.main_pk,
{
    let n = r.n as int;
    let k = r.round as int;
    vstd::arithmetic::div_mod::lemma_small_mod((k + 1) as nat, (usize::MAX + 1) as nat);
    if k % n == n - 1 {
        vstd::arithmetic::div_mod::lemma_fundamental_div_mod(k, n);
        assert(n * (k / n) + n == (k / n + 1) * n) by (nonlinear_arith);
        vstd::arithmetic::div_mod::lemma_fundamental_div_mod_converse(k + 1, n, k / n + 1, 0);
    } else {
        vstd::arithmetic::div_mod::lemma_fundamental_div_mod(k, n);
        assert(n * (k / n) == (k / n) * n) by (nonlinear_arith);
        vstd::arithmetic::div_mod::lemma_fundamental_div_mod_converse(k + 1, n, k / n, k % n + 1);
    }
}

/// Law: into the hash of a key go, for each key column in turn, its name, a mark,
/// the bytes of the row's value and another mark.
pub proof fn law_every_key_column_is_hashed(row: Cells, pk: Seq<Seq<char>>, i: int)
    requires
        0 <= i < pk.len(),
    ensures
        hashed(row, pk).len() == 4 * pk.len(),
        hashed(row, pk)[4 * i] == vstd::utf8::encode_utf8(pk[i]),
        hashed(row, pk)[4 * i + 2] == digest(strmap::at(row, pk[i])),
        hashed(row, pk)[4 * i + 1] != hashed(row, pk)[4 * i + 3],
    decreases pk.len(),
{
    let head = pk.drop_last();
    lemma_hashed_len(row, head);
    if i < head.len() {
        law_every_key_column_is_hashed(row, head, i);
    } else {
        let (a, b) = (seq![0xFFu8], seq![0xFEu8]);
        assert(a[0] != b[0]);
    }
}

proof fn lemma_hashed_len(row: Cells, pk: Seq<Seq<char>>)
    ensures
        hashed(row, pk).len() == 4 * pk.len(),
    decreases pk.len(),
{
    if pk.len() > 0 {
        lemma_hashed_len(row, pk.drop_last());
    }
}

/// Law: a missing value, a null and the two truth values are told apart. A whole
/// number counts by its value, whether it is held with a sign or without; a text
/// by its text, whether it is a text, a decimal or a date.
pub proof fn law_values_are_hashed_by_value(i: i64, s: Seq<char>)
    ensures
        digest(None) != digest(Some(Val::Null)),
        digest(None) != digest(Some(Val::Bool(true))),
        digest(None) != digest(Some(Val::Bool(false))),
        digest(Some(Val::Null)) != digest(Some(Val::Bool(true))),
        digest(Some(Val::Null)) != digest(Some(Val::Bool(false))),
        digest(Some(Val::Bool(true))) != digest(Some(Val::Bool(false))),
        i >= 0 ==> digest(Some(Val::Int(i))) == digest(Some(Val::UInt(i as u64))),
        digest(Some(Val::String(s))) == vstd::utf8::encode_utf8(s),
        digest(Some(Val::Decimal(s))) == digest(Some(Val::String(s))),
        digest(Some(Val::Date(s))) == digest(Some(Val::String(s))),
{
    let all = seq![seq![0x00u8], seq![0x01u8], seq![2u8], seq![3u8]];
    assert(all[0][0] == 0 && all[1][0] == 1 && all[2][0] == 2 && all[3][0] == 3);
    assert(digest(None) == all[0]);
}

/// Law: whole numbers of different value count as different, and the pattern of one
/// is that of the machine word it is held in; bytes count by themselves, a double by
/// its pattern.
pub proof fn law_numbers_are_hashed_by_their_pattern(i: i64, j: i64, b: Seq<u8>, f: float::FloatV)
    ensures
        same_bits(i) == same_bits(j) ==> i == j,
        sql::wrapped(same_bits(i)) == i,
        digest(Some(Val::Int(i))) == vstd::bytes::spec_u64_to_le_bytes(same_bits(i)),
        digest(Some(Val::Bytes(b))) == b,
        digest(Some(Val::Float(f))) == digest(Some(Val::UInt(f.bits))),
{
}

} // verus!
