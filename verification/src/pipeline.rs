//! A job's ordered ETL pipeline.

use vstd::prelude::*;

use crate::builtin;
use crate::builtin::{CastProcessor, FilterProcessor, RenameProcessor, SetProcessor};
use crate::error::{AppError, AppErrorV, AppResult, EtlError, EtlErrorV};
use crate::etl::{EtlContext, EtlOutputRow, EtlOutputRowV, EtlProcessor, EtlRow, EtlRowV, LookupV, Named, TableLookup};
use crate::job::{EtlStep, EtlStepKind, EtlStepV};
use crate::json::Json;
use crate::text;
use crate::text::{cat2, cat4, cat5, copy, same};
use crate::views;

verus! {

// ---------------------------------------------------------------------------
// Steps
// ---------------------------------------------------------------------------

/// One step: a built-in processor, or one that was loaded.
pub enum Step<P> {
    Rename(RenameProcessor),
    Constant(SetProcessor),
    Filter(FilterProcessor),
    Cast(CastProcessor),
    Plugin(P),
}

/// What a step hands back.
pub type StepResult = Result<Seq<EtlOutputRowV>, EtlErrorV>;

/// Whether a loaded processor can give this for a row.
pub open spec fn plugin_gives<L: TableLookup, P: EtlProcessor<L>>(
    p: P,
    lookup: L,
    input: EtlRowV,
    r: StepResult,
) -> bool {
    exists|c: &mut EtlContext<L>, i: &EtlRow, o: Result<Vec<EtlOutputRow>, EtlError>|
        {
            &&& i@ == input
            &&& c.belongs_to(input)
            &&& c.lookup.served_by() == lookup
            &&& c.lookup.made() == Seq::<LookupV>::empty()
            &&& #[trigger] call_ensures(P::process, (&p, c, i), o)
            &&& r == builtin::outputs(o)
        }
}

/// The table that the built-in processors write to: that of the target schema,
/// else none.
pub open spec fn target_of(input: EtlRowV) -> Seq<char> {
    match input.target_schema {
        Some(s) => s.table,
        None => ""@,
    }
}

/// Whether a step can give this for a row.
pub open spec fn step_gives<L: TableLookup, P: EtlProcessor<L>>(
    step: Step<P>,
    lookup: L,
    input: EtlRowV,
    r: StepResult,
) -> bool {
    match step {
        Step::Rename(p) => r == builtin::single(target_of(input), builtin::renamed(input.row, p.rename.items())),
        Step::Constant(p) => r == builtin::single(
            target_of(input),
            builtin::with_constants(input.row, p.set.constants()),
        ),
        Step::Filter(p) => r == builtin::filtered(
            builtin::passes(views::opt(p.filter.keep), views::opt(p.filter.drop), input.row),
            target_of(input),
            input.row,
        ),
        Step::Cast(p) => r == builtin::recast(builtin::converted(input.row, p.cast.items()), target_of(input)),
        Step::Plugin(p) => plugin_gives(p, lookup, input, r),
    }
}

/// Whether a step can go by this name.
pub open spec fn step_named<P: Named>(step: Step<P>, name: Seq<char>) -> bool {
    match step {
        Step::Rename(_) => name == "rename"@,
        Step::Constant(_) => name == "set"@,
        Step::Filter(_) => name == "filter"@,
        Step::Cast(_) => name == "cast"@,
        Step::Plugin(p) => exists|n: &str| #[trigger] call_ensures(P::name, (&p,), n) && n@ == name,
    }
}

fn run_step<L: TableLookup, P: EtlProcessor<L>>(step: &Step<P>, lookup: &L, input: &EtlRow) -> (out: Result<
    Vec<EtlOutputRow>,
    EtlError,
>)
    ensures
        step_gives(*step, *lookup, input@, builtin::outputs(out)),
{
    let mut ctx = EtlContext::from_row(input, lookup);
    assert(ctx.target_table() == target_of(input@));
    match step {
        Step::Rename(p) => p.process(&mut ctx, input),
        Step::Constant(p) => p.process(&mut ctx, input),
        Step::Filter(p) => p.process(&mut ctx, input),
        Step::Cast(p) => p.process(&mut ctx, input),
        Step::Plugin(p) => {
            let o = p.process(&mut ctx, input);
            assert(plugin_gives(*p, *lookup, input@, builtin::outputs(o)));
            o
        },
    }
}

fn name_of<P: Named>(step: &Step<P>) -> (out: String)
    ensures
        step_named(*step, out@),
{
    match step {
        Step::Rename(p) => copy(p.name()),
        Step::Constant(p) => copy(p.name()),
        Step::Filter(p) => copy(p.name()),
        Step::Cast(p) => copy(p.name()),
        Step::Plugin(p) => {
            let n = p.name();
            assert(call_ensures(P::name, (p,), n));
            copy(n)
        },
    }
}

// ---------------------------------------------------------------------------
// Stages
// ---------------------------------------------------------------------------

/// The outputs one after the other; those up to the first error.
pub open spec fn collected(results: Seq<StepResult>) -> Seq<EtlOutputRowV>
    decreases results.len(),
{
    if results.len() == 0 {
        Seq::empty()
    } else {
        match results.last() {
            Ok(v) => collected(results.drop_last()) + v,
            Err(_) => collected(results.drop_last()),
        }
    }
}

/// Whether the results can be those of a step on each of the rows, in order, up
/// to the first error.
pub open spec fn stage_results<L: TableLookup, P: EtlProcessor<L>>(
    step: Step<P>,
    lookup: L,
    input: EtlRowV,
    rows: Seq<EtlOutputRowV>,
    results: Seq<StepResult>,
) -> bool {
    &&& results.len() <= rows.len()
    &&& forall|i: int|
        0 <= i < results.len() ==> step_gives(
            step,
            lookup,
            EtlRowV { row: rows[i].row, ..input },
            #[trigger] results[i],
        )
    &&& forall|i: int| 0 <= i < results.len() - 1 ==> (#[trigger] results[i]) is Ok
    &&& results.len() == rows.len() || (results.len() > 0 && results.last() is Err)
}

/// The rows that a stage hands on, or its error.
pub open spec fn stage_outcome(results: Seq<StepResult>) -> StepResult {
    if results.len() > 0 && results.last() is Err {
        Err(results.last()->Err_0)
    } else {
        Ok(collected(results))
    }
}

/// Whether a stage can come to this.
pub open spec fn stage_gives<L: TableLookup, P: EtlProcessor<L>>(
    step: Step<P>,
    lookup: L,
    input: EtlRowV,
    rows: Seq<EtlOutputRowV>,
    r: StepResult,
) -> bool {
    exists|results: Seq<StepResult>| #[trigger]
        stage_results(step, lookup, input, rows, results) && r == stage_outcome(results)
}

/// Appends one list to another.
fn append_rows(to: &mut Vec<EtlOutputRow>, from: Vec<EtlOutputRow>)
    ensures
        views::list(final(to)@) == views::list(old(to)@) + views::list(from@),
{
    let ghost a = to@;
    let ghost b = from@;
    let mut from = from;
    to.append(&mut from);
    assert(views::list(to@) =~= views::list(a) + views::list(b));
}

fn run_stage<L: TableLookup, P: EtlProcessor<L>>(
    step: &Step<P>,
    lookup: &L,
    input: &EtlRow,
    rows: &Vec<EtlOutputRow>,
) -> (out: Result<Vec<EtlOutputRow>, EtlError>)
    ensures
        stage_gives(*step, *lookup, input@, views::list(rows@), builtin::outputs(out)),
{
    let ghost all = views::list(rows@);
    let ghost mut results: Seq<StepResult> = Seq::empty();
    let mut next: Vec<EtlOutputRow> = Vec::new();
    let mut i: usize = 0;
    assert(views::list(next@) =~= Seq::<EtlOutputRowV>::empty());
    while i < rows.len()
        invariant
            i <= rows.len(),
            all == views::list(rows@),
            results.len() == i,
            forall|k: int|
                0 <= k < i ==> step_gives(
                    *step,
                    *lookup,
                    EtlRowV { row: all[k].row, ..input@ },
                    #[trigger] results[k],
                ),
            forall|k: int| 0 <= k < i ==> (#[trigger] results[k]) is Ok,
            views::list(next@) == collected(results),
        decreases rows.len() - i,
    {
        let row = input.with_row(rows[i].row.clone());
        assert(all[i as int] == rows@[i as int]@);
        let r = run_step(step, lookup, &row);
        proof {
            let longer = results.push(builtin::outputs(r));
            assert(longer.drop_last() =~= results);
            assert forall|k: int| 0 <= k < i + 1 implies step_gives(
                *step,
                *lookup,
                EtlRowV { row: all[k].row, ..input@ },
                #[trigger] longer[k],
            ) by {
                assert(k < i ==> longer[k] == results[k]);
            }
            assert forall|k: int| 0 <= k < i implies (#[trigger] longer[k]) is Ok by {
                assert(longer[k] == results[k]);
            }
            results = longer;
        }
        match r {
            Ok(v) => append_rows(&mut next, v),
            Err(e) => {
                assert(stage_results(*step, *lookup, input@, all, results));
                return Err(e);
            },
        }
        i += 1;
    }
    assert(stage_results(*step, *lookup, input@, all, results));
    proof {
        assert(results.len() > 0 ==> results[results.len() - 1] is Ok);
    }
    Ok(next)
}

// ---------------------------------------------------------------------------
// Pipelines
// ---------------------------------------------------------------------------

/// A job's ordered ETL pipeline. Stateless between rows.
pub struct EtlPipeline<P> {
    pub steps: Vec<Step<P>>,
}

/// What a pipeline hands back.
pub open spec fn run_view(r: AppResult<Vec<EtlOutputRow>>) -> Result<Seq<EtlOutputRowV>, AppErrorV> {
    match r {
        Ok(v) => Ok(views::list(v@)),
        Err(e) => Err(e@),
    }
}

/// The error of a step.
pub open spec fn step_failed(name: Seq<char>, cause: EtlErrorV) -> AppErrorV {
    AppErrorV::Etl("etl step '"@ + name + "': "@ + cause.words())
}

/// What enters the first step: the row, for the default table.
pub open spec fn entering(input: EtlRowV, table: Seq<char>) -> Seq<EtlOutputRowV> {
    seq![EtlOutputRowV { table, row: input.row }]
}

impl<P> EtlPipeline<P> {
    /// Whether the stages can be those of a run: the first is what enters, and
    /// each further one is what the step before it made of the one before.
    pub open spec fn stages<L: TableLookup>(
        self,
        lookup: L,
        input: EtlRowV,
        table: Seq<char>,
        stages: Seq<Seq<EtlOutputRowV>>,
    ) -> bool where P: EtlProcessor<L> {
        &&& 0 < stages.len() <= self.steps@.len() + 1
        &&& stages[0] == entering(input, table)
        &&& forall|k: int|
            0 < k < stages.len() ==> stage_gives(
                self.steps@[k - 1],
                lookup,
                input,
                stages[k - 1],
                Ok(#[trigger] stages[k]),
            )
    }

    /// Whether `r` can be the end of these stages: the rows that the last step
    /// handed on, or the error of the step that follows.
    pub open spec fn ends<L: TableLookup>(
        self,
        lookup: L,
        input: EtlRowV,
        stages: Seq<Seq<EtlOutputRowV>>,
        r: Result<Seq<EtlOutputRowV>, AppErrorV>,
    ) -> bool where P: EtlProcessor<L> {
        match r {
            Ok(v) => stages.len() == self.steps@.len() + 1 && v == stages.last(),
            Err(x) => stages.len() <= self.steps@.len() && fails(
                self.steps@[stages.len() - 1],
                lookup,
                input,
                stages.last(),
                x,
            ),
        }
    }

    /// Whether `r` can be what the pipeline makes of a row.
    pub open spec fn gives<L: TableLookup>(
        self,
        lookup: L,
        input: EtlRowV,
        table: Seq<char>,
        r: Result<Seq<EtlOutputRowV>, AppErrorV>,
    ) -> bool where P: EtlProcessor<L> {
        exists|stages: Seq<Seq<EtlOutputRowV>>| #[trigger]
            self.stages(lookup, input, table, stages) && self.ends(lookup, input, stages, r)
    }

    /// Run every step on one row, chaining outputs into the next step. An
    /// empty pipeline returns the input row untouched.
    pub fn run<L: TableLookup>(&self, input: &EtlRow, lookup: &L, default_table: &str) -> (out: AppResult<
        Vec<EtlOutputRow>,
    >) where P: EtlProcessor<L>
        ensures
            self.gives(*lookup, input@, default_table@, run_view(out)),
    {
        let mut current: Vec<EtlOutputRow> = Vec::new();
        current.push(EtlOutputRow::new(copy(default_table), input.row.clone()));
        let ghost mut stages: Seq<Seq<EtlOutputRowV>> = seq![views::list(current@)];
        assert(stages[0] =~= entering(input@, default_table@));
        let mut i: usize = 0;
        while i < self.steps.len()
            invariant
                i <= self.steps.len(),
                stages.len() == i + 1,
                stages.last() == views::list(current@),
                self.stages(*lookup, input@, default_table@, stages),
            decreases self.steps.len() - i,
        {
            match run_stage(&self.steps[i], lookup, input, &current) {
                Ok(next) => {
                    proof {
                        let longer = stages.push(views::list(next@));
                        assert forall|k: int| 0 < k < longer.len() implies stage_gives(
                            self.steps@[k - 1],
                            *lookup,
                            input@,
                            longer[k - 1],
                            Ok(#[trigger] longer[k]),
                        ) by {
                            if k < stages.len() {
                                assert(longer[k] == stages[k] && longer[k - 1] == stages[k - 1]);
                                assert(stage_gives(self.steps@[k - 1], *lookup, input@, stages[k - 1], Ok(stages[k])));
                            } else {
                                assert(longer[k - 1] == stages.last());
                            }
                        }
                        stages = longer;
                    }
                    current = next;
                },
                Err(e) => {
                    let name = name_of(&self.steps[i]);
                    let words = e.message();
                    let x = AppError::Etl(cat4("etl step '", name.as_str(), "': ", words.as_str()));
                    proof {
                        assert(failure(self.steps@[i as int], *lookup, input@, stages.last(), name@, e@));
                        assert(fails(self.steps@[i as int], *lookup, input@, stages.last(), x@));
                        assert(self.ends(*lookup, input@, stages, Err(x@)));
                    }
                    return Err(x);
                },
            }
            i += 1;
        }
        assert(self.ends(*lookup, input@, stages, Ok(views::list(current@))));
        Ok(current)
    }
}

/// Whether a step, by this name, can fail so on the rows.
pub open spec fn failure<L: TableLookup, P: EtlProcessor<L>>(
    step: Step<P>,
    lookup: L,
    input: EtlRowV,
    rows: Seq<EtlOutputRowV>,
    name: Seq<char>,
    e: EtlErrorV,
) -> bool {
    step_named(step, name) && stage_gives(step, lookup, input, rows, Err(e))
}

/// Whether the pipeline can end with this error at a step.
pub open spec fn fails<L: TableLookup, P: EtlProcessor<L>>(
    step: Step<P>,
    lookup: L,
    input: EtlRowV,
    rows: Seq<EtlOutputRowV>,
    x: AppErrorV,
) -> bool {
    exists|name: Seq<char>, e: EtlErrorV| #[trigger]
        failure(step, lookup, input, rows, name, e) && x == step_failed(name, e)
}

/// Law: an empty pipeline hands the row on untouched, for the default table.
pub proof fn law_empty_pipeline_is_identity<L: TableLookup, P: EtlProcessor<L>>(
    pipeline: EtlPipeline<P>,
    lookup: L,
    input: EtlRowV,
    table: Seq<char>,
    r: Result<Seq<EtlOutputRowV>, AppErrorV>,
)
    requires
        pipeline.steps@.len() == 0,
        pipeline.gives(lookup, input, table, r),
    ensures
        r == Ok::<Seq<EtlOutputRowV>, AppErrorV>(entering(input, table)),
{
}

/// What a last step can make of what came before it: an error stays as it is.
pub open spec fn then_step<L: TableLookup, P: EtlProcessor<L>>(
    step: Step<P>,
    lookup: L,
    input: EtlRowV,
    x: Result<Seq<EtlOutputRowV>, AppErrorV>,
    r: Result<Seq<EtlOutputRowV>, AppErrorV>,
) -> bool {
    match x {
        Err(e) => r == Err::<Seq<EtlOutputRowV>, AppErrorV>(e),
        Ok(rows) => match r {
            Ok(v) => stage_gives(step, lookup, input, rows, Ok(v)),
            Err(e) => fails(step, lookup, input, rows, e),
        },
    }
}

/// Law: a pipeline with one step more is that step after the shorter pipeline,
/// and nothing else.
pub proof fn law_last_step_follows_the_rest<L: TableLookup, P: EtlProcessor<L>>(
    shorter: EtlPipeline<P>,
    longer: EtlPipeline<P>,
    step: Step<P>,
    lookup: L,
    input: EtlRowV,
    table: Seq<char>,
    r: Result<Seq<EtlOutputRowV>, AppErrorV>,
)
    requires
        longer.steps@ == shorter.steps@.push(step),
    ensures
        longer.gives(lookup, input, table, r) <==> exists|x: Result<Seq<EtlOutputRowV>, AppErrorV>| #[trigger]
            shorter.gives(lookup, input, table, x) && then_step(step, lookup, input, x, r),
{
    let n = shorter.steps@.len() as int;
    if longer.gives(lookup, input, table, r) {
        let stages = choose|stages: Seq<Seq<EtlOutputRowV>>| #[trigger]
            longer.stages(lookup, input, table, stages) && longer.ends(lookup, input, stages, r);
        if stages.len() <= n {
            assert(shorter.stages(lookup, input, table, stages)) by {
                assert forall|k: int| 0 < k < stages.len() implies stage_gives(
                    shorter.steps@[k - 1],
                    lookup,
                    input,
                    stages[k - 1],
                    Ok(#[trigger] stages[k]),
                ) by {
                    assert(longer.steps@[k - 1] == shorter.steps@[k - 1]);
                }
            }
            assert(longer.steps@[stages.len() - 1] == shorter.steps@[stages.len() - 1]);
            assert(shorter.ends(lookup, input, stages, r));
            assert(shorter.gives(lookup, input, table, r) && then_step(step, lookup, input, r, r));
        } else {
            let head = stages.take(n + 1);
            let x = Ok::<Seq<EtlOutputRowV>, AppErrorV>(head.last());
            assert(shorter.stages(lookup, input, table, head)) by {
                assert forall|k: int| 0 < k < head.len() implies stage_gives(
                    shorter.steps@[k - 1],
                    lookup,
                    input,
                    head[k - 1],
                    Ok(#[trigger] head[k]),
                ) by {
                    assert(head[k] == stages[k] && head[k - 1] == stages[k - 1]);
                    assert(longer.steps@[k - 1] == shorter.steps@[k - 1]);
                }
            }
            assert(shorter.ends(lookup, input, head, x));
            assert(shorter.gives(lookup, input, table, x));
            assert(longer.steps@[n] == step);
            if stages.len() == n + 2 {
                assert(stage_gives(longer.steps@[n], lookup, input, stages[n], Ok(stages[n + 1])));
            }
            assert(then_step(step, lookup, input, x, r));
        }
    }
    if exists|x: Result<Seq<EtlOutputRowV>, AppErrorV>| #[trigger]
        shorter.gives(lookup, input, table, x) && then_step(step, lookup, input, x, r) {
        let x = choose|x: Result<Seq<EtlOutputRowV>, AppErrorV>| #[trigger]
            shorter.gives(lookup, input, table, x) && then_step(step, lookup, input, x, r);
        let head = choose|stages: Seq<Seq<EtlOutputRowV>>| #[trigger]
            shorter.stages(lookup, input, table, stages) && shorter.ends(lookup, input, stages, x);
        assert forall|k: int| 0 < k < head.len() implies stage_gives(
            longer.steps@[k - 1],
            lookup,
            input,
            head[k - 1],
            Ok(#[trigger] head[k]),
        ) by {
            assert(longer.steps@[k - 1] == shorter.steps@[k - 1]);
        }
        assert(longer.stages(lookup, input, table, head));
        if x is Err || r is Err {
            assert(longer.steps@[head.len() - 1] == (if x is Err {
                shorter.steps@[head.len() - 1]
            } else {
                step
            }));
            assert(longer.ends(lookup, input, head, r));
        } else {
            let all = head.push(r->Ok_0);
            assert forall|k: int| 0 < k < all.len() implies stage_gives(
                longer.steps@[k - 1],
                lookup,
                input,
                all[k - 1],
                Ok(#[trigger] all[k]),
            ) by {
                if k < head.len() {
                    assert(all[k] == head[k] && all[k - 1] == head[k - 1]);
                } else {
                    assert(longer.steps@[n] == step);
                    assert(all[k - 1] == head.last());
                }
            }
            assert(longer.stages(lookup, input, table, all));
            assert(longer.ends(lookup, input, all, r));
        }
        assert(longer.gives(lookup, input, table, r));
    }
}

/// Law: a pipeline of one filter hands on the row or nothing, and hands on the
/// row as it came.
pub proof fn law_filter_only_drops<L: TableLookup, P: EtlProcessor<L>>(
    pipeline: EtlPipeline<P>,
    f: FilterProcessor,
    lookup: L,
    input: EtlRowV,
    table: Seq<char>,
    r: Result<Seq<EtlOutputRowV>, AppErrorV>,
)
    requires
        pipeline.steps@ == seq![Step::<P>::Filter(f)],
        pipeline.gives(lookup, input, table, r),
        r is Ok,
    ensures
        r->Ok_0.len() <= 1,
        forall|i: int| 0 <= i < r->Ok_0.len() ==> (#[trigger] r->Ok_0[i]).row == input.row,
{
    let stages = choose|stages: Seq<Seq<EtlOutputRowV>>| #[trigger]
        pipeline.stages(lookup, input, table, stages) && pipeline.ends(lookup, input, stages, r);
    assert(stages.len() == 2);
    let rows = stages[0];
    assert(stage_gives(pipeline.steps@[0], lookup, input, rows, Ok(stages[1])));
    let results = choose|results: Seq<StepResult>| #[trigger]
        stage_results(pipeline.steps@[0], lookup, input, rows, results) && Ok::<Seq<EtlOutputRowV>, EtlErrorV>(stages[1])
            == stage_outcome(results);
    assert(results.len() == 1);
    let row = EtlRowV { row: rows[0].row, ..input };
    assert(row =~= input);
    assert(step_gives(pipeline.steps@[0], lookup, row, results[0]));
    assert(results.drop_last() =~= Seq::<StepResult>::empty());
    let none = collected(results.drop_last());
    assert(none =~= Seq::<EtlOutputRowV>::empty());
    assert(collected(results) =~= results[0]->Ok_0);
}

// ---------------------------------------------------------------------------
// Building
// ---------------------------------------------------------------------------

/// What a step is built as.
#[derive(Debug, Clone, Copy, PartialEq, Eq, Structural)]
pub enum StepPlan {
    Rename,
    Constant,
    Filter,
    Cast,
    Plugin,
}

/// What came of building a step.
pub enum StepReply<P> {
    Built(Step<P>),
    /// The configuration of a built-in processor does not read.
    BadConfig(String),
    /// There is no plugin of that name.
    NoPlugin(EtlError),
    /// The plugin refused.
    Refused(EtlError),
}

pub open spec fn plan(job: Seq<char>, step: EtlStepV) -> Result<StepPlan, AppErrorV> {
    match step.kind {
        EtlStepKind::Plugin => Ok(StepPlan::Plugin),
        EtlStepKind::Builtin => if step.name == "rename"@ {
            Ok(StepPlan::Rename)
        } else if step.name == "set"@ {
            Ok(StepPlan::Constant)
        } else if step.name == "filter"@ {
            Ok(StepPlan::Filter)
        } else if step.name == "cast"@ {
            Ok(StepPlan::Cast)
        } else {
            Err(AppErrorV::Config("job '"@ + job + "': unknown builtin etl step '"@ + step.name + "'"@))
        },
    }
}

/// What a step of a job is built as.
pub fn plan_step(job: &str, step: &EtlStep) -> (out: AppResult<StepPlan>)
    ensures
        (match out {
            Ok(p) => Ok(p),
            Err(e) => Err(e@),
        }) == plan(job@, step@),
{
    match step.kind {
        EtlStepKind::Plugin => Ok(StepPlan::Plugin),
        EtlStepKind::Builtin => if same(step.name.as_str(), "rename") {
            Ok(StepPlan::Rename)
        } else if same(step.name.as_str(), "set") {
            Ok(StepPlan::Constant)
        } else if same(step.name.as_str(), "filter") {
            Ok(StepPlan::Filter)
        } else if same(step.name.as_str(), "cast") {
            Ok(StepPlan::Cast)
        } else {
            Err(AppError::Config(cat5("job '", job, "': unknown builtin etl step '", step.name.as_str(), "'")))
        },
    }
}

/// The step, or why there is none.
pub open spec fn built<P>(job: Seq<char>, name: Seq<char>, reply: StepReply<P>) -> Result<Step<P>, AppErrorV> {
    match reply {
        StepReply::Built(s) => Ok(s),
        StepReply::BadConfig(e) => Err(AppErrorV::Config("job '"@ + job + "' "@ + name + ": "@ + e@)),
        StepReply::NoPlugin(e) => Err(AppErrorV::Config("job '"@ + job + "': "@ + e@.words())),
        StepReply::Refused(e) => Err(AppErrorV::Etl("job '"@ + job + "': "@ + e@.words())),
    }
}

/// What came of building a step.
pub open spec fn built_view<P>(r: AppResult<Step<P>>) -> Result<Step<P>, AppErrorV> {
    match r {
        Ok(s) => Ok(s),
        Err(e) => Err(e@),
    }
}

pub fn settle_step<P>(job: &str, name: &str, reply: StepReply<P>) -> (out: AppResult<Step<P>>)
    ensures
        built_view(out) == built(job@, name@, reply),
{
    match reply {
        StepReply::Built(s) => Ok(s),
        StepReply::BadConfig(e) => {
            let head = cat5("job '", job, "' ", name, ": ");
            Err(AppError::Config(cat2(head.as_str(), e.as_str())))
        },
        StepReply::NoPlugin(e) => {
            let words = e.message();
            Err(AppError::Config(cat4("job '", job, "': ", words.as_str())))
        },
        StepReply::Refused(e) => {
            let words = e.message();
            Err(AppError::Etl(cat4("job '", job, "': ", words.as_str())))
        },
    }
}

/// Whether building a step of a job can come to this.
pub open spec fn building_gives<P, M: Fn(StepPlan, &EtlStep, &Json) -> StepReply<P>>(
    make: M,
    job: Seq<char>,
    step: EtlStep,
    config: Json,
    r: Result<Step<P>, AppErrorV>,
) -> bool {
    match plan(job, step@) {
        Err(e) => r == Err::<Step<P>, AppErrorV>(e),
        Ok(p) => exists|reply: StepReply<P>| #[trigger]
            call_ensures(make, (p, &step, &config), reply) && r == built(job, step@.name, reply),
    }
}

/// The number of steps that have a configuration.
pub open spec fn step_count(steps: nat, configs: nat) -> nat {
    if steps < configs {
        steps
    } else {
        configs
    }
}

/// Whether the results can be those of building the steps, in order, up to the
/// first error.
pub open spec fn buildings<P, M: Fn(StepPlan, &EtlStep, &Json) -> StepReply<P>>(
    make: M,
    job: Seq<char>,
    steps: Seq<EtlStep>,
    configs: Seq<Json>,
    results: Seq<Result<Step<P>, AppErrorV>>,
) -> bool {
    &&& results.len() <= step_count(steps.len(), configs.len())
    &&& forall|i: int|
        0 <= i < results.len() ==> building_gives(make, job, steps[i], configs[i], #[trigger] results[i])
    &&& forall|i: int| 0 <= i < results.len() - 1 ==> (#[trigger] results[i]) is Ok
    &&& results.len() == step_count(steps.len(), configs.len()) || (results.len() > 0 && results.last() is Err)
}

/// The pipeline's steps, or the first error.
pub open spec fn assembled<P>(results: Seq<Result<Step<P>, AppErrorV>>) -> Result<Seq<Step<P>>, AppErrorV> {
    if results.len() > 0 && results.last() is Err {
        Err(results.last()->Err_0)
    } else {
        Ok(results.map_values(|r: Result<Step<P>, AppErrorV>| r->Ok_0))
    }
}

/// What came of building a pipeline.
pub open spec fn pipeline_view<P>(r: AppResult<EtlPipeline<P>>) -> Result<Seq<Step<P>>, AppErrorV> {
    match r {
        Ok(p) => Ok(p.steps@),
        Err(e) => Err(e@),
    }
}

impl<P> EtlPipeline<P> {
    /// Build the pipeline for a job: `make` reads the configuration of a
    /// built-in processor or instantiates a plugin. Steps are built once and
    /// shared across all rows of every run.
    pub fn build<M: Fn(StepPlan, &EtlStep, &Json) -> StepReply<P>>(
        job: &str,
        steps: &Vec<EtlStep>,
        configs: &Vec<Json>,
        make: &M,
    ) -> (out: AppResult<EtlPipeline<P>>)
        requires
            forall|p: StepPlan, s: &EtlStep, c: &Json| call_requires(*make, (p, s, c)),
        ensures
            exists|results: Seq<Result<Step<P>, AppErrorV>>| #[trigger]
                buildings(*make, job@, steps@, configs@, results) && pipeline_view(out) == assembled(results),
    {
        let ghost mut results: Seq<Result<Step<P>, AppErrorV>> = Seq::empty();
        let mut done: Vec<Step<P>> = Vec::new();
        let mut i: usize = 0;
        while i < steps.len() && i < configs.len()
            invariant
                forall|p: StepPlan, s: &EtlStep, c: &Json| call_requires(*make, (p, s, c)),
                i <= steps.len(),
                i <= configs.len(),
                results.len() == i,
                done@.len() == i,
                forall|k: int|
                    0 <= k < i ==> building_gives(*make, job@, steps@[k], configs@[k], #[trigger] results[k]),
                forall|k: int| 0 <= k < i ==> (#[trigger] results[k]) == Ok::<Step<P>, AppErrorV>(done@[k]),
            decreases steps.len() - i,
        {
            let r = match plan_step(job, &steps[i]) {
                Err(e) => Err(e),
                Ok(p) => {
                    let s: &EtlStep = &steps[i];
                    let c: &Json = &configs[i];
                    let reply = (*make)(p, s, c);
                    assert(call_ensures(*make, (p, s, c), reply));
                    settle_step(job, steps[i].name.as_str(), reply)
                },
            };
            proof {
                let x = built_view(r);
                assert(building_gives(*make, job@, steps@[i as int], configs@[i as int], x));
                let longer = results.push(x);
                assert forall|k: int| 0 <= k < i + 1 implies building_gives(
                    *make,
                    job@,
                    steps@[k],
                    configs@[k],
                    #[trigger] longer[k],
                ) by {
                    assert(k < i ==> longer[k] == results[k]);
                }
                assert forall|k: int| 0 <= k < i implies (#[trigger] longer[k]) == Ok::<Step<P>, AppErrorV>(done@[k]) by {
                    assert(longer[k] == results[k]);
                }
                results = longer;
            }
            match r {
                Ok(s) => {
                    done.push(s);
                },
                Err(e) => {
                    assert(buildings(*make, job@, steps@, configs@, results));
                    return Err(e);
                },
            }
            i += 1;
        }
        proof {
            assert(buildings(*make, job@, steps@, configs@, results));
            assert(results.map_values(|r: Result<Step<P>, AppErrorV>| r->Ok_0) =~= done@);
            assert(results.len() > 0 ==> results[results.len() - 1] is Ok);
        }
        Ok(EtlPipeline { steps: done })
    }
}

// ---------------------------------------------------------------------------
// What a step does to the rows
// ---------------------------------------------------------------------------

/// Law: the rows of a step are the outputs for its rows, one after the other.
pub proof fn law_outputs_keep_their_order(a: Seq<StepResult>, b: Seq<StepResult>, v: Seq<EtlOutputRowV>)
    ensures
        collected(a + b) == collected(a) + collected(b),
        collected(seq![Ok(v)]) == v,
        collected(Seq::empty()) == Seq::<EtlOutputRowV>::empty(),
    decreases b.len(),
{
    reveal_with_fuel(collected, 2);
    assert(seq![Ok::<Seq<EtlOutputRowV>, EtlErrorV>(v)].drop_last() =~= Seq::<StepResult>::empty());
    assert(Seq::<EtlOutputRowV>::empty() + v =~= v);
    if b.len() == 0 {
        assert(a + b =~= a);
        assert(collected(a) + Seq::<EtlOutputRowV>::empty() =~= collected(a));
    } else {
        law_outputs_keep_their_order(a, b.drop_last(), v);
        assert((a + b).drop_last() =~= a + b.drop_last());
        assert((a + b).last() == b.last());
        if let Ok(x) = b.last() {
            assert(collected(a) + (collected(b.drop_last()) + x) =~= (collected(a) + collected(b.drop_last())) + x);
        }
    }
}

proof fn lemma_singles(results: Seq<StepResult>)
    requires
        forall|i: int| 0 <= i < results.len() ==> ((#[trigger] results[i]) matches Ok(v) && v.len() == 1),
    ensures
        collected(results).len() == results.len(),
        forall|i: int| 0 <= i < results.len() ==> collected(results)[i] == (#[trigger] results[i])->Ok_0[0],
    decreases results.len(),
{
    if results.len() > 0 {
        let head = results.drop_last();
        assert forall|i: int| 0 <= i < head.len() implies ((#[trigger] head[i]) matches Ok(v) && v.len() == 1) by {
            assert(head[i] == results[i]);
        }
        lemma_singles(head);
        assert(results[results.len() - 1] is Ok);
        assert forall|i: int| 0 <= i < results.len() implies collected(results)[i] == (#[trigger] results[i])->Ok_0[0] by {
            if i < head.len() {
                assert(head[i] == results[i]);
                assert(collected(head)[i] == head[i]->Ok_0[0]);
            }
        }
    }
}

/// Law: a step that renames columns or sets constants gives one row for each row, in
/// the same order, with its columns renamed or its constants set, and never fails.
pub proof fn law_renaming_and_setting_keep_the_rows<L: TableLookup, P: EtlProcessor<L>>(
    step: Step<P>,
    lookup: L,
    input: EtlRowV,
    rows: Seq<EtlOutputRowV>,
    r: StepResult,
    i: int,
)
    requires
        step is Rename || step is Constant,
        stage_gives(step, lookup, input, rows, r),
        0 <= i < rows.len(),
    ensures
        r is Ok,
        r->Ok_0.len() == rows.len(),
        step matches Step::Rename(p) ==> r->Ok_0[i].row == builtin::renamed(rows[i].row, p.rename.items()),
        step matches Step::Constant(p) ==> r->Ok_0[i].row == builtin::with_constants(rows[i].row, p.set.constants()),
{
    let results = choose|results: Seq<StepResult>| #[trigger]
        stage_results(step, lookup, input, rows, results) && r == stage_outcome(results);
    assert forall|k: int| 0 <= k < results.len() implies ((#[trigger] results[k]) matches Ok(v) && v.len() == 1) by {
        assert(step_gives(step, lookup, EtlRowV { row: rows[k].row, ..input }, results[k]));
    }
    if results.len() > 0 {
        assert(results[results.len() - 1] is Ok);
    }
    lemma_singles(results);
    assert(step_gives(step, lookup, EtlRowV { row: rows[i].row, ..input }, results[i]));
}

proof fn lemma_at_most_singles(results: Seq<StepResult>, rows: Seq<EtlOutputRowV>, o: EtlOutputRowV)
    requires
        results.len() == rows.len(),
        forall|i: int|
            0 <= i < results.len() ==> ((#[trigger] results[i]) matches Ok(v) && v.len() <= 1 && (v.len() == 1 ==> v[0].row
                == rows[i].row)),
        collected(results).contains(o),
    ensures
        exists|i: int| 0 <= i < rows.len() && (#[trigger] rows[i]).row == o.row && results[i]->Ok_0.len() == 1,
    decreases results.len(),
{
    if results.len() > 0 {
        let n = results.len() - 1;
        let head = results.drop_last();
        let rest = rows.drop_last();
        let v = results.last()->Ok_0;
        assert(results[n] is Ok);
        let all = collected(head) + v;
        let k = choose|k: int| 0 <= k < all.len() && all[k] == o;
        assert forall|i: int| 0 <= i < head.len() implies ((#[trigger] head[i]) matches Ok(x) && x.len() <= 1 && (x.len()
            == 1 ==> x[0].row == rest[i].row)) by {
            assert(head[i] == results[i] && rest[i] == rows[i]);
        }
        if k < collected(head).len() {
            assert(collected(head)[k] == o);
            lemma_at_most_singles(head, rest, o);
            let i = choose|i: int| 0 <= i < rest.len() && (#[trigger] rest[i]).row == o.row && head[i]->Ok_0.len() == 1;
            assert(rows[i].row == o.row && results[i]->Ok_0.len() == 1);
        } else {
            assert(v[k - collected(head).len()] == o);
            assert(rows[n].row == o.row && results[n]->Ok_0.len() == 1);
        }
    }
}

/// Law: a filter gives only rows that it was given and that pass.
pub proof fn law_filter_gives_what_passes<L: TableLookup, P: EtlProcessor<L>>(
    f: FilterProcessor,
    lookup: L,
    input: EtlRowV,
    rows: Seq<EtlOutputRowV>,
    out: Seq<EtlOutputRowV>,
    o: EtlOutputRowV,
)
    requires
        stage_gives(Step::<P>::Filter(f), lookup, input, rows, Ok(out)),
        out.contains(o),
    ensures
        builtin::passes(views::opt(f.filter.keep), views::opt(f.filter.drop), o.row) == Ok::<bool, EtlErrorV>(true),
        exists|i: int| 0 <= i < rows.len() && (#[trigger] rows[i]).row == o.row,
{
    let step = Step::<P>::Filter(f);
    let results = choose|results: Seq<StepResult>| #[trigger]
        stage_results(step, lookup, input, rows, results) && Ok::<Seq<EtlOutputRowV>, EtlErrorV>(out) == stage_outcome(
            results,
        );
    assert forall|k: int| 0 <= k < results.len() implies ((#[trigger] results[k]) matches Ok(v) && v.len() <= 1 && (v.len()
        == 1 ==> v[0].row == rows[k].row)) by {
        assert(step_gives(step, lookup, EtlRowV { row: rows[k].row, ..input }, results[k]));
        if k == results.len() - 1 {
            assert(results[k] == results.last());
        }
    }
    lemma_at_most_singles(results, rows, o);
    let i = choose|i: int| 0 <= i < rows.len() && (#[trigger] rows[i]).row == o.row && results[i]->Ok_0.len() == 1;
    assert(step_gives(step, lookup, EtlRowV { row: rows[i].row, ..input }, results[i]));
}

/// Law: what a step hands on goes to the target table of its row, or to none where
/// the row has no target.
pub proof fn law_outputs_go_to_the_target(input: EtlRowV)
    ensures
        input.target_schema matches Some(s) ==> target_of(input) == s.table,
        input.target_schema is None ==> target_of(input).len() == 0,
{
    reveal_strlit("");
}

/// Law: a step of a plugin is planned as one whatever its name; a step that is
/// built in is the one that it names, and one under another name is refused.
pub proof fn law_steps_are_planned_by_name(job: Seq<char>, step: EtlStepV)
    ensures
        step.kind is Plugin ==> plan(job, step) == Ok::<StepPlan, AppErrorV>(StepPlan::Plugin),
        step.kind is Builtin ==> {
            &&& plan(job, step) == Ok::<StepPlan, AppErrorV>(StepPlan::Rename) <==> step.name == "rename"@
            &&& plan(job, step) == Ok::<StepPlan, AppErrorV>(StepPlan::Constant) <==> step.name == "set"@
            &&& plan(job, step) == Ok::<StepPlan, AppErrorV>(StepPlan::Filter) <==> step.name == "filter"@
            &&& plan(job, step) == Ok::<StepPlan, AppErrorV>(StepPlan::Cast) <==> step.name == "cast"@
            &&& plan(job, step) != Ok::<StepPlan, AppErrorV>(StepPlan::Plugin)
        },
{
    reveal_strlit("rename");
    reveal_strlit("set");
    reveal_strlit("filter");
    reveal_strlit("cast");
    assert("rename"@[0] == 'r' && "set"@[0] == 's' && "filter"@[0] == 'f' && "cast"@[0] == 'c');
}

/// Law: a step is had just where it was built; a bad configuration and a missing
/// plugin are faults of the configuration, a refusal one of the step.
pub proof fn law_step_is_had_where_built<P>(job: Seq<char>, name: Seq<char>, reply: StepReply<P>)
    ensures
        reply matches StepReply::Built(s) ==> built(job, name, reply) == Ok::<Step<P>, AppErrorV>(s),
        reply is BadConfig || reply is NoPlugin ==> (built(job, name, reply) matches Err(e) && e is Config),
        reply is Refused ==> (built(job, name, reply) matches Err(e) && e is Etl),
{
}

/// Law: a step that fails is named, with its own words for the cause.
pub proof fn law_failed_step_is_named(name: Seq<char>, cause: EtlErrorV)
    ensures
        step_failed(name, cause) matches AppErrorV::Etl(s) && text::starts_with(s, "etl step '"@ + name) && text::ends_with(
            s,
            cause.words(),
        ),
{
    let none = Seq::<char>::empty();
    let p = "etl step '"@ + name;
    let w = cause.words();
    assert(p + "': "@ + w =~= p + ("': "@ + w));
    text::law_parts_are_found(none, p, "': "@ + w);
    text::law_parts_are_found(p + "': "@, w, none);
}

/// Law: a row enters a pipeline as it is, alone, bound for its table.
pub proof fn law_row_enters_as_it_is(input: EtlRowV, table: Seq<char>)
    ensures
        entering(input, table).len() == 1,
        entering(input, table)[0].row == input.row,
        entering(input, table)[0].table == table,
{
}

/// Law: a built in step goes by the name under which it is planned.
pub proof fn law_steps_go_by_their_planned_names<P: Named>(job: Seq<char>, s: EtlStepV, step: Step<P>, name: Seq<char>)
    requires
        s.kind is Builtin,
        s.name == name,
        !(step is Plugin),
        step_named(step, name),
    ensures
        step is Rename ==> plan(job, s) == Ok::<StepPlan, AppErrorV>(StepPlan::Rename),
        step is Constant ==> plan(job, s) == Ok::<StepPlan, AppErrorV>(StepPlan::Constant),
        step is Filter ==> plan(job, s) == Ok::<StepPlan, AppErrorV>(StepPlan::Filter),
        step is Cast ==> plan(job, s) == Ok::<StepPlan, AppErrorV>(StepPlan::Cast),
{
    law_steps_are_planned_by_name(job, s);
}

/// Law: a pipeline has a step for each one that has a configuration, in their order,
/// where all of them could be built; otherwise the fault of the one that could not
/// counts.
pub proof fn law_pipeline_has_its_steps_in_order<P>(results: Seq<Result<Step<P>, AppErrorV>>, i: int)
    requires
        forall|k: int| 0 <= k < results.len() - 1 ==> (#[trigger] results[k]) is Ok,
        0 <= i < results.len(),
    ensures
        assembled(results) is Ok <==> forall|k: int| 0 <= k < results.len() ==> (#[trigger] results[k]) is Ok,
        assembled(results) matches Ok(v) ==> v.len() == results.len() && results[i] == Ok::<Step<P>, AppErrorV>(v[i]),
        assembled(results) matches Err(e) ==> exists|k: int|
            0 <= k < results.len() && (#[trigger] results[k]) == Err::<Step<P>, AppErrorV>(e),
{
    assert(results[results.len() - 1] == results.last());
}

/// Law: steps and configurations go together as far as both reach.
pub proof fn law_steps_need_configurations(steps: nat, configs: nat)
    ensures
        step_count(steps, configs) <= steps,
        step_count(steps, configs) <= configs,
        step_count(steps, configs) == steps || step_count(steps, configs) == configs,
{
}

} // verus!
