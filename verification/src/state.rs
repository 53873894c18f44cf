//! Per-job high-water-mark persistence.
//!
//! State is stored as a small JSON object next to the job, e.g.
//! `state/user_sync.json`:
//!
//! ```json
//! { "max_id": 42, "max_updated": "2026-01-01 10:00:00" }
//! ```
//!
//! Values are flattened to plain JSON numbers / strings / null on disk. Reading
//! and writing the file is the caller's part: the text goes to a temp file
//! first, which is renamed into place, so a crash never leaves a truncated
//! state file.

use vstd::prelude::*;

use crate::config;
use crate::config::resolve_relative;
use crate::error::{AppError, AppErrorV, AppResult};
use crate::json;
use crate::json::{json_to_value, read_object, value_to_json, write_object, Cell, CellV};
use crate::model::{Val, Value};
use crate::strmap;
use crate::strmap::StrMap;
use crate::text;
use crate::text::{cat2, cat4, chars_of, copy, same};
use crate::views;

verus! {

// ---------------------------------------------------------------------------
// File names
// ---------------------------------------------------------------------------

/// What [`is_alphanumeric`] returns for a character.
pub uninterp spec fn alphanumeric(c: char) -> bool;

pub open spec fn ascii_alphanumeric(c: char) -> bool {
    ('0' <= c <= '9') || ('A' <= c <= 'Z') || ('a' <= c <= 'z')
}

/// `char::is_alphanumeric` of std: whether the character is a letter or a
/// number. Of the ASCII characters these are the letters and the digits.
#[verifier::external_body]
fn is_alphanumeric(c: char) -> (out: bool)
    ensures
        out == alphanumeric(c),
        c <= '\x7f' ==> out == ascii_alphanumeric(c),
{
    c.is_alphanumeric()
}

/// The character itself where it is harmless in a file name, else an underscore.
pub open spec fn harmless(c: char) -> char {
    if alphanumeric(c) || c == '_' || c == '-' {
        c
    } else {
        '_'
    }
}

/// A job's name as the stem of a file name.
pub open spec fn stem(job: Seq<char>) -> Seq<char> {
    job.map_values(|c: char| harmless(c))
}

fn stem_of(job: &str) -> (out: String)
    ensures
        out@ == stem(job@),
        forall|i: int|
            0 <= i < job@.len() && job@[i] <= '\x7f' ==> (#[trigger] out@[i]) == (if ascii_alphanumeric(job@[i])
                || job@[i] == '_' || job@[i] == '-' {
                job@[i]
            } else {
                '_'
            }),
        !out@.contains('/'),
        !out@.contains('\\'),
        !out@.contains('.'),
{
    let v = chars_of(job);
    let ghost want = stem(job@);
    let mut out = String::new();
    let mut i: usize = 0;
    while i < v.len()
        invariant
            i <= v@.len(),
            v@ == job@,
            want == stem(job@),
            out@ == want.take(i as int),
            forall|k: int|
                0 <= k < i && job@[k] <= '\x7f' ==> (#[trigger] want[k]) == (if ascii_alphanumeric(job@[k]) || job@[k] == '_'
                    || job@[k] == '-' {
                    job@[k]
                } else {
                    '_'
                }),
            !out@.contains('/'),
            !out@.contains('\\'),
            !out@.contains('.'),
        decreases v.len() - i,
    {
        let c = v[i];
        let d = if is_alphanumeric(c) || c == '_' || c == '-' {
            c
        } else {
            '_'
        };
        let ghost before = out@;
        out.push(d);
        proof {
            assert(want.take(i + 1) =~= want.take(i as int).push(want[i as int]));
            assert forall|x: char| #[trigger] out@.contains(x) implies before.contains(x) || x == d by {
                let k = choose|k: int| 0 <= k < out@.len() && out@[k] == x;
                if k < before.len() {
                    assert(before[k] == x);
                }
            }
        }
        i += 1;
    }
    assert(want.take(i as int) =~= want);
    out
}

/// The file name of a job's state. It never leaves the state directory: it
/// holds no path separator. A name of ASCII letters, digits, underscores and
/// hyphens stays as it is.
pub fn safe_file_name(job: &str) -> (out: String)
    ensures
        out@ == stem(job@) + ".json"@,
        forall|i: int|
            0 <= i < job@.len() && job@[i] <= '\x7f' ==> (#[trigger] out@[i]) == (if ascii_alphanumeric(job@[i])
                || job@[i] == '_' || job@[i] == '-' {
                job@[i]
            } else {
                '_'
            }),
        !out@.contains('/'),
        (forall|i: int|
            0 <= i < job@.len() ==> ascii_alphanumeric(#[trigger] job@[i]) || job@[i] == '_' || job@[i] == '-') ==> out@
            == job@ + ".json"@,
        !out@.contains('\\'),
        !stem(job@).contains('.'),
{
    let s = stem_of(job);
    let out = cat2(s.as_str(), ".json");
    proof {
        reveal_strlit(".json");
        assert(".json"@ =~= seq!['.', 'j', 's', 'o', 'n']);
        assert forall|i: int| 0 <= i < job@.len() implies #[trigger] out@[i] == s@[i] by {}
        if forall|i: int|
            0 <= i < job@.len() ==> ascii_alphanumeric(#[trigger] job@[i]) || job@[i] == '_' || job@[i] == '-' {
            assert forall|i: int| 0 <= i < job@.len() implies #[trigger] s@[i] == job@[i] by {
                assert(ascii_alphanumeric(job@[i]) || job@[i] == '_' || job@[i] == '-');
            }
            assert(s@ =~= job@);
        }
        assert forall|k: int| 0 <= k < out@.len() implies #[trigger] out@[k] != '/' && out@[k] != '\\' by {
            if k < s@.len() {
                assert(s@.contains(s@[k]));
            } else {
                assert(out@[k] == ".json"@[k - s@.len()]);
            }
        }
    }
    out
}

// ---------------------------------------------------------------------------
// The store
// ---------------------------------------------------------------------------

/// The state values of a job, by key.
#[derive(Debug)]
pub struct StateStore {
    pub job: String,
    pub dir: String,
    pub values: StrMap<Value>,
}

/// What a [`StateStore`] holds.
#[verifier::ext_equal]
pub struct StateV {
    pub job: Seq<char>,
    pub dir: Seq<char>,
    pub values: Seq<(Seq<char>, Val)>,
}

impl View for StateStore {
    type V = StateV;

    open spec fn view(&self) -> StateV {
        StateV { job: self.job@, dir: self.dir@, values: self.values@ }
    }
}

/// What is written to make the state durable: the text, the temp file that takes
/// it first, and the file that the temp file is renamed to.
#[derive(Debug)]
pub struct StateFile {
    pub dir: String,
    pub path: String,
    pub temp: String,
    pub text: String,
}

/// Where a job's state lies.
pub open spec fn state_path(dir: Seq<char>, job: Seq<char>) -> Seq<char> {
    config::resolved(dir, stem(job) + ".json"@)
}

/// The temp file that takes a job's state first. A job without a name has a
/// file whose name is all stem, so the whole extension is added.
pub open spec fn temp_path(dir: Seq<char>, job: Seq<char>) -> Seq<char> {
    state_path(dir, job) + (if job.len() == 0 {
        ".json.tmp"@
    } else {
        ".tmp"@
    })
}

/// The values of the entries.
pub open spec fn entry_values(cells: Seq<(Seq<char>, CellV)>) -> Seq<(Seq<char>, Val)> {
    cells.map_values(|e: (Seq<char>, CellV)| (e.0, json::cell_value(e.1)))
}

/// The entries of the values.
pub open spec fn value_entries(values: Seq<(Seq<char>, Val)>) -> Seq<(Seq<char>, CellV)> {
    values.map_values(|e: (Seq<char>, Val)| (e.0, json::value_cell(e.1)))
}

/// The state that the text of a file describes; a job without a file has none.
pub open spec fn loaded(dir: Seq<char>, job: Seq<char>, file: Option<Seq<char>>) -> Result<StateV, AppErrorV> {
    match file {
        None => Ok(StateV { job, dir, values: Seq::empty() }),
        Some(s) => match json::object_reading(s) {
            Err(e) => Err(AppErrorV::State("invalid state "@ + state_path(dir, job) + ": "@ + e)),
            Ok(cells) => Ok(StateV { job, dir, values: entry_values(cells) }),
        },
    }
}

fn values_of(cells: Vec<(String, Cell)>) -> (out: StrMap<Value>)
    requires
        strmap::ordered(strmap::entries_view(cells@)),
    ensures
        out@ == entry_values(strmap::entries_view(cells@)),
{
    let ghost all = strmap::entries_view(cells@);
    let ghost want = entry_values(all);
    let mut rest = cells;
    let mut out: StrMap<Value> = StrMap::new();
    let ghost mut done: int = 0;
    assert(want.take(0) =~= out@);
    assert(all.skip(0) =~= all);
    while rest.len() > 0
        invariant
            0 <= done <= all.len(),
            strmap::ordered(all),
            want == entry_values(all),
            strmap::entries_view(rest@) == all.skip(done),
            out@ == want.take(done),
            strmap::ordered(out@),
        decreases rest.len(),
    {
        let ghost before = rest@;
        let e = rest.remove(0);
        let (k, c) = e;
        let ghost cell = c@;
        let v = json_to_value(c);
        proof {
            assert(strmap::entries_view(before).len() == all.skip(done).len());
            assert(strmap::entries_view(before)[0] == all.skip(done)[0]);
            assert(strmap::entries_view(before)[0] == strmap::entry_view(before[0]));
            assert(all.skip(done)[0] == all[done]);
            assert(all[done] == (k@, cell));
            assert(want[done] == (k@, v@));
            assert forall|i: int| 0 <= i < out@.len() implies text::less(#[trigger] out@[i].0, k@) by {
                assert(out@[i] == want[i]);
                assert(want[i].0 == all[i].0);
                assert(text::less(all[i].0, all[done].0));
            }
            strmap::lemma_put_last(out@, k@, v@);
            assert(want.take(done + 1) =~= want.take(done).push(want[done]));
            assert(strmap::entries_view(rest@) =~= all.skip(done + 1)) by {
                assert(strmap::entries_view(rest@) =~= strmap::entries_view(before).skip(1));
                assert(all.skip(done).skip(1) =~= all.skip(done + 1));
            }
            done = done + 1;
        }
        out.insert(k, v);
    }
    assert(done == all.len()) by {
        assert(strmap::entries_view(rest@).len() == 0);
    }
    assert(want.take(done) =~= want);
    out
}

fn cells_of(values: &StrMap<Value>) -> (out: Vec<(String, Cell)>)
    ensures
        strmap::entries_view(out@) == value_entries(values@),
        strmap::ordered(strmap::entries_view(out@)),
{
    let ghost want = value_entries(values@);
    let mut out: Vec<(String, Cell)> = Vec::new();
    let mut i: usize = 0;
    while i < values.len()
        invariant
            i <= values@.len(),
            want == value_entries(values@),
            strmap::entries_view(out@) == want.take(i as int),
        decreases values@.len() - i,
    {
        let e = (copy(values.key_at(i)), value_to_json(values.value_at(i)));
        let ghost before = strmap::entries_view(out@);
        out.push(e);
        assert(strmap::entries_view(out@) =~= before.push((e.0@, e.1@)));
        assert(want.take(i + 1) =~= want.take(i as int).push(want[i as int]));
        i += 1;
    }
    assert(want.take(i as int) =~= want);
    proof {
        let p = values@;
        assert forall|a: int, b: int| 0 <= a < b < want.len() implies text::less(#[trigger] want[a].0, #[trigger] want[b].0) by {
            assert(text::less(p[a].0, p[b].0));
        }
    }
    out
}

impl StateStore {
    /// The state of a job, from the text of its file; a job without a file
    /// starts with no values.
    pub fn load(state_dir: &str, job: &str, file: Option<&str>) -> (out: AppResult<StateStore>)
        ensures
            views::res(out) == loaded(state_dir@, job@, views::opt(file)),
    {
        match file {
            None => Ok(StateStore { job: copy(job), dir: copy(state_dir), values: StrMap::new() }),
            Some(s) => match read_object(s) {
                Err(e) => {
                    let name = safe_file_name(job);
                    let path = resolve_relative(state_dir, name.as_str());
                    Err(AppError::State(cat4("invalid state ", path.as_str(), ": ", e.as_str())))
                },
                Ok(cells) => Ok(StateStore { job: copy(job), dir: copy(state_dir), values: values_of(cells) }),
            },
        }
    }

    /// Where the state lies.
    pub fn path(&self) -> (out: String)
        ensures
            out@ == state_path(self@.dir, self@.job),
    {
        let name = safe_file_name(self.job.as_str());
        resolve_relative(self.dir.as_str(), name.as_str())
    }

    pub fn get(&self, key: &str) -> (out: Option<&Value>)
        ensures
            views::opt(out) == strmap::at(self@.values, key@),
            strmap::ordered(self@.values),
    {
        self.values.get(key)
    }

    pub fn set(&mut self, key: String, value: Value)
        ensures
            final(self)@ == (StateV { values: strmap::put(old(self)@.values, key@, value@), ..old(self)@ }),
            strmap::ordered(final(self)@.values),
    {
        self.values.insert(key, value);
    }

    /// What is written to make the state durable. Every state can be written.
    pub fn save(&self) -> (out: AppResult<StateFile>)
        ensures
            out is Ok,
            json::object_writing(value_entries(self@.values)) == Ok::<Seq<char>, Seq<char>>(out->Ok_0.text@),
            out->Ok_0.dir@ == self@.dir,
            out->Ok_0.path@ == state_path(self@.dir, self@.job),
            out->Ok_0.temp@ == temp_path(self@.dir, self@.job),
            json::all_exact(value_entries(self@.values)) ==> loaded(
                self@.dir,
                self@.job,
                Some(out->Ok_0.text@),
            ) == Ok::<StateV, AppErrorV>(
                StateV { values: entry_values(value_entries(self@.values)), ..self@ },
            ),
    {
        let cells = cells_of(&self.values);
        match write_object(cells) {
            Err(e) => Err(AppError::State(e)),
            Ok(text) => {
                let path = self.path();
                proof {
                    reveal_strlit("");
                    assert(self@.job.len() == 0 ==> self@.job =~= ""@);
                }
                let temp = if same(self.job.as_str(), "") {
                    cat2(path.as_str(), ".json.tmp")
                } else {
                    cat2(path.as_str(), ".tmp")
                };
                Ok(StateFile { dir: self.dir.clone(), path, temp, text })
            },
        }
    }
}

/// Law: what is saved is what the next load gives back, flattened: every key
/// with its value, and no other key.
pub proof fn law_saved_state_comes_back(values: Seq<(Seq<char>, Val)>, key: Seq<char>)
    requires
        strmap::ordered(values),
        forall|i: int| 0 <= i < values.len() ==> !((#[trigger] values[i]).1 is Float),
    ensures
        json::all_exact(value_entries(values)),
        strmap::at(entry_values(value_entries(values)), key) == (match strmap::at(values, key) {
            Some(v) => Some(json::flattened(v)),
            None => None,
        }),
    decreases values.len(),
{
    let c = value_entries(values);
    assert forall|a: int, b: int| 0 <= a < b < c.len() implies text::less(#[trigger] c[a].0, #[trigger] c[b].0) by {
        assert(text::less(values[a].0, values[b].0));
    }
    assert forall|i: int| 0 <= i < c.len() implies json::exact((#[trigger] c[i]).1) by {
        json::law_flattening_is_stable(values[i].1);
    }
    if values.len() > 0 {
        let t = values.drop_last();
        assert forall|i: int, j: int| 0 <= i < j < t.len() implies text::less(#[trigger] t[i].0, #[trigger] t[j].0) by {
            assert(text::less(values[i].0, values[j].0));
        }
        assert forall|i: int| 0 <= i < t.len() implies !((#[trigger] t[i]).1 is Float) by {
            assert(t[i] == values[i]);
        }
        law_saved_state_comes_back(t, key);
        let e = entry_values(c);
        assert(e.drop_last() =~= entry_values(value_entries(t)));
    }
}

/// The error of a state directory that cannot be made.
pub fn no_state_dir(dir: &str, cause: &str) -> (out: AppError)
    ensures
        out@ == AppErrorV::State("cannot create state dir "@ + dir@ + ": "@ + cause@),
{
    AppError::State(cat4("cannot create state dir ", dir, ": ", cause))
}

/// The error of a state file that cannot be read.
pub fn unreadable_state(path: &str, cause: &str) -> (out: AppError)
    ensures
        out@ == AppErrorV::State("cannot read "@ + path@ + ": "@ + cause@),
{
    AppError::State(cat4("cannot read ", path, ": ", cause))
}

/// The error of a temp file that cannot be written.
pub fn unwritable_state(path: &str, cause: &str) -> (out: AppError)
    ensures
        out@ == AppErrorV::State("cannot write "@ + path@ + ": "@ + cause@),
{
    AppError::State(cat4("cannot write ", path, ": ", cause))
}

/// The error of a temp file that cannot be renamed.
pub fn unmovable_state(temp: &str, path: &str, cause: &str) -> (out: AppError)
    ensures
        out@ == AppErrorV::State("cannot rename "@ + temp@ + " -> "@ + path@ + ": "@ + cause@),
{
    let head = cat4("cannot rename ", temp, " -> ", path);
    AppError::State(text::cat3(head.as_str(), ": ", cause))
}

// ---------------------------------------------------------------------------
// Where the state is kept
// ---------------------------------------------------------------------------

/// Law: the state file of a job has a name of as many characters as the job's,
/// which are the job's own but for those that might not stand in a file name; it
/// lies in the directory of the states. The file it is written to first lies
/// beside it under a longer name.
pub proof fn law_state_file_is_named_by_its_job(dir: Seq<char>, job: Seq<char>, i: int)
    requires
        0 <= i < job.len(),
    ensures
        stem(job).len() == job.len(),
        alphanumeric(job[i]) || job[i] == '_' || job[i] == '-' ==> stem(job)[i] == job[i],
        !alphanumeric(job[i]) ==> stem(job)[i] == '_' || stem(job)[i] == '-',
        stem(stem(job))[i] == stem(job)[i],
        state_path(dir, job) == config::resolved(dir, stem(job) + ".json"@),
        text::starts_with(temp_path(dir, job), state_path(dir, job)),
        temp_path(dir, job).len() == state_path(dir, job).len() + 4,
{
    reveal_strlit(".tmp");
    text::law_parts_are_found(Seq::empty(), state_path(dir, job), ".tmp"@);
}

/// Law: a job without a state file starts with no values; with one, it has the
/// values of the file, each under its key; a file that cannot be read is refused.
pub proof fn law_state_is_what_the_file_holds(dir: Seq<char>, job: Seq<char>, file: Option<Seq<char>>, k: int)
    ensures
        file is None ==> (loaded(dir, job, file) matches Ok(s) && s.values.len() == 0),
        file matches Some(f) ==> (loaded(dir, job, file) is Ok <==> json::object_reading(f) is Ok),
        loaded(dir, job, file) matches Ok(s) ==> s.job == job && s.dir == dir,
        loaded(dir, job, file) matches Err(e) ==> e is State,
        file matches Some(f) ==> (json::object_reading(f) matches Ok(cells) ==> loaded(dir, job, file)->Ok_0.values.len()
            == cells.len() && (0 <= k < cells.len() ==> loaded(dir, job, file)->Ok_0.values[k] == (
            cells[k].0,
            json::cell_value(cells[k].1),
        ))),
{
}

/// Law: the file that a state is written to first has the name of the state file
/// with `.tmp` behind it, and for a job without a name `.json.tmp`.
pub proof fn law_temporary_file_is_named_after_the_state(dir: Seq<char>, job: Seq<char>)
    ensures
        text::starts_with(temp_path(dir, job), state_path(dir, job)),
        job.len() > 0 ==> temp_path(dir, job) == state_path(dir, job) + ".tmp"@,
        job.len() == 0 ==> temp_path(dir, job) == state_path(dir, job) + ".json.tmp"@,
{
    text::law_parts_are_found(Seq::empty(), state_path(dir, job), ".tmp"@);
    text::law_parts_are_found(Seq::empty(), state_path(dir, job), ".json.tmp"@);
}

} // verus!
