use vstd::prelude::*;
use crate::error::{Result, ScribeError};

verus! {

/// What a pipeline does after one of its stages fails.
#[derive(Debug, Clone, Copy, PartialEq, Eq, Structural)]
pub enum Fallback {
    /// Abort the whole pipeline with an error.
    Abort,
    /// Skip the failed stage and go on with its input.
    Skip,
    /// Go on with the failed stage's input.
    Continue,
}

/// Binary log data flowing through a pipeline.
#[derive(Clone)]
pub struct LogBatch {
    pub data: Vec<u8>,
}

impl View for LogBatch {
    type V = Seq<u8>;

    open spec fn view(&self) -> Seq<u8> {
        self.data@
    }
}

impl LogBatch {
    pub fn new(data: Vec<u8>) -> (r: LogBatch)
        ensures
            r@ == data@,
    {
        LogBatch { data }
    }

    pub fn empty() -> (r: LogBatch)
        ensures
            r@ == Seq::<u8>::empty(),
    {
        LogBatch { data: Vec::new() }
    }

    /// The size of the batch in bytes.
    pub fn size(&self) -> (r: usize)
        ensures
            r == self@.len(),
    {
        self.data.len()
    }
}

pub open spec fn batch_result_view(r: &Result<LogBatch>) -> std::result::Result<Seq<u8>, ScribeError> {
    match r {
        Ok(b) => Ok(b@),
        Err(e) => Err(*e),
    }
}

/// A step of a pipeline.
pub trait PipelineStage: Send + Sync {
    /// What the stage promises of one call of `process`: the relation between
    /// its input and its outcome. A stage that states nothing leaves it true.
    open spec fn spec_process(&self, input: Seq<u8>, outcome: std::result::Result<Seq<u8>, ScribeError>) -> bool {
        true
    }

    /// The stage's name; a stage that does not state it leaves it unknown.
    open spec fn spec_name(&self) -> Seq<char> {
        vstd::pervasive::arbitrary()
    }

    fn name(&self) -> (r: &str)
        ensures
            r@ == self.spec_name(),
    ;

    /// Whether `fallback` is one the stage may choose after `process` failed
    /// on `input` with `error`. A stage that does not state it may choose any.
    open spec fn spec_fallback(&self, input: Seq<u8>, error: ScribeError, fallback: Fallback) -> bool {
        true
    }

    fn process(&self, data: LogBatch) -> (r: Result<LogBatch>)
        ensures
            self.spec_process(data@, batch_result_view(&r)),
    ;

    /// How the pipeline goes on after `process` failed on `data` with
    /// `error`: one of the fallbacks that `spec_fallback` allows.
    fn on_error(&self, data: LogBatch, error: ScribeError) -> (r: Fallback)
        ensures
            self.spec_fallback(data@, error, r),
    ;
}

/// The error with which an aborted pipeline fails.
pub open spec fn is_abort_error(e: ScribeError) -> bool {
    e matches ScribeError::Mmap(s) && s@ == "Pipeline aborted"@
}

/// The outcomes that stages `i..` can give for `input`: each stage's outcome
/// satisfies its own promise; a success passes its output on; after a
/// failure the fallback the stage chose, one its promise allows, decides: `Abort` ends the run with the abort
/// error and no later stage runs, `Skip` and `Continue` pass the stage's
/// input on.
pub open spec fn stages_outcome(
    stages: Seq<Box<dyn PipelineStage>>,
    i: int,
    input: Seq<u8>,
    result: std::result::Result<Seq<u8>, ScribeError>,
) -> bool
    decreases stages.len() - i,
{
    if i < 0 || i >= stages.len() {
        result == Ok::<Seq<u8>, ScribeError>(input)
    } else {
        exists|out: std::result::Result<Seq<u8>, ScribeError>|
            #[trigger] stages[i].spec_process(input, out) && match out {
                Ok(next) => stages_outcome(stages, i + 1, next, result),
                Err(e) => exists|f: Fallback|
                    #[trigger] stages[i].spec_fallback(input, e, f) && match f {
                        Fallback::Abort => result matches Err(a) && is_abort_error(a),
                        _ => stages_outcome(stages, i + 1, input, result),
                    },
            }
    }
}

/// Applies a stage's fallback after it failed on `original`.
pub fn apply_fallback(fallback: Fallback, original: LogBatch) -> (r: Result<LogBatch>)
    ensures
        fallback is Abort ==> (r matches Err(e) && is_abort_error(e)),
        !(fallback is Abort) ==> (r matches Ok(b) && b@ == original@),
{
    match fallback {
        Fallback::Abort => Err(ScribeError::Mmap("Pipeline aborted".to_owned())),
        Fallback::Skip => Ok(original),
        Fallback::Continue => Ok(original),
    }
}

/// A chain of stages run in order.
pub struct Pipeline {
    stages: Vec<Box<dyn PipelineStage>>,
}

impl Pipeline {
    pub closed spec fn stages(&self) -> Seq<Box<dyn PipelineStage>> {
        self.stages@
    }

    /// The outcomes that running this pipeline on `input` can give.
    pub open spec fn spec_outcome(&self, input: Seq<u8>, result: std::result::Result<Seq<u8>, ScribeError>) -> bool {
        stages_outcome(self.stages(), 0, input, result)
    }

    pub fn new() -> (r: Pipeline)
        ensures
            r.stages().len() == 0,
    {
        Pipeline { stages: Vec::new() }
    }

    /// The pipeline with `stage` appended.
    pub fn add_stage(self, stage: Box<dyn PipelineStage>) -> (r: Pipeline)
        ensures
            r.stages() == self.stages().push(stage),
            r.stages().len() == self.stages().len() + 1,
    {
        let mut p = self;
        let ghost before = p.stages@;
        p.stages.push(stage);
        proof {
            vstd::seq::axiom_seq_push_len(before, stage);
        }
        p
    }

    pub fn stage_count(&self) -> (r: usize)
        ensures
            r == self.stages().len(),
    {
        self.stages.len()
    }

    /// The name of stage `i`.
    pub fn stage_name(&self, i: usize) -> (r: &str)
        requires
            i < self.stages().len(),
        ensures
            r@ == self.stages()[i as int].spec_name(),
    {
        self.stages[i].name()
    }

    /// Runs `data` through every stage in order.
    pub fn process(&self, data: LogBatch) -> (r: Result<LogBatch>)
        ensures
            self.spec_outcome(data@, batch_result_view(&r)),
    {
        let ghost stages = self.stages@;
        let ghost input = data@;
        let mut cur = data;
        let mut i: usize = 0;
        while i < self.stages.len()
            invariant
                stages == self.stages@,
                input == data@,
                i <= stages.len(),
                forall|res: std::result::Result<Seq<u8>, ScribeError>|
                    #[trigger] stages_outcome(stages, i as int, cur@, res) ==> stages_outcome(stages, 0, input, res),
            decreases stages.len() - i,
        {
            let original = LogBatch::new(cur.data.clone());
            let ghost before = cur@;
            let outcome = self.stages[i].process(cur);
            let ghost out = batch_result_view(&outcome);
            assert(stages[i as int].spec_process(before, out));
            match outcome {
                Ok(result) => {
                    assert forall|res: std::result::Result<Seq<u8>, ScribeError>|
                        #[trigger] stages_outcome(stages, i + 1, result@, res) implies stages_outcome(stages, 0, input, res) by {
                        assert(stages_outcome(stages, i as int, before, res));
                    }
                    cur = result;
                },
                Err(e) => {
                    let ghost err = e;
                    let fallback = self.stages[i].on_error(LogBatch::new(original.data.clone()), e);
                    assert(stages[i as int].spec_fallback(before, err, fallback));
                    match apply_fallback(fallback, original) {
                        Ok(kept) => {
                            assert forall|res: std::result::Result<Seq<u8>, ScribeError>|
                                #[trigger] stages_outcome(stages, i + 1, before, res) implies stages_outcome(stages, 0, input, res) by {
                                assert(stages_outcome(stages, i as int, before, res));
                            }
                            cur = kept;
                        },
                        Err(err) => {
                            assert(stages_outcome(stages, i as int, before, Err(err)));
                            return Err(err);
                        },
                    }
                },
            }
            i = i + 1;
        }
        assert(stages_outcome(stages, i as int, cur@, Ok(cur@)));
        Ok(cur)
    }
}

/// A pipeline without stages hands its input back unchanged, and nothing else.
pub proof fn lemma_empty_pipeline(
    p: &Pipeline,
    input: Seq<u8>,
    result: std::result::Result<Seq<u8>, ScribeError>,
)
    requires
        p.stages().len() == 0,
    ensures
        p.spec_outcome(input, result) <==> result == Ok::<Seq<u8>, ScribeError>(input),
{
}

/// Whether stage `j` never aborts: whatever input it fails on, every
/// fallback it may choose goes on.
pub open spec fn never_aborts(stages: Seq<Box<dyn PipelineStage>>, j: int) -> bool {
    forall|x: Seq<u8>, e: ScribeError, f: Fallback|
        #![trigger stages[j].spec_process(x, Err(e)), stages[j].spec_fallback(x, e, f)]
        stages[j].spec_process(x, Err(e)) && stages[j].spec_fallback(x, e, f) ==> !(f is Abort)
}

/// Whether stage `k` always aborts: on every input, every outcome it may
/// give is a failure, after which every fallback it may choose is `Abort`.
pub open spec fn always_aborts(stages: Seq<Box<dyn PipelineStage>>, k: int) -> bool {
    forall|x: Seq<u8>, out: std::result::Result<Seq<u8>, ScribeError>|
        #[trigger] stages[k].spec_process(x, out) ==> (out matches Err(e) && forall|f: Fallback|
            #[trigger] stages[k].spec_fallback(x, e, f) ==> f is Abort)
}

/// A run in which no stage from `i` on ever aborts succeeds: every failed
/// stage is skipped, and the run ends with the data the last stage left.
pub proof fn lemma_no_abort_succeeds(
    stages: Seq<Box<dyn PipelineStage>>,
    i: int,
    input: Seq<u8>,
    result: std::result::Result<Seq<u8>, ScribeError>,
)
    requires
        0 <= i,
        forall|j: int| i <= j < stages.len() ==> #[trigger] never_aborts(stages, j),
        stages_outcome(stages, i, input, result),
    ensures
        result is Ok,
    decreases stages.len() - i,
{
    if i < stages.len() {
        let out = choose|out: std::result::Result<Seq<u8>, ScribeError>|
            #[trigger] stages[i].spec_process(input, out) && match out {
                Ok(next) => stages_outcome(stages, i + 1, next, result),
                Err(e) => exists|f: Fallback|
                    #[trigger] stages[i].spec_fallback(input, e, f) && match f {
                        Fallback::Abort => result matches Err(a) && is_abort_error(a),
                        _ => stages_outcome(stages, i + 1, input, result),
                    },
            };
        match out {
            Ok(next) => {
                lemma_no_abort_succeeds(stages, i + 1, next, result);
            },
            Err(e) => {
                let f = choose|f: Fallback|
                    #[trigger] stages[i].spec_fallback(input, e, f) && match f {
                        Fallback::Abort => result matches Err(a) && is_abort_error(a),
                        _ => stages_outcome(stages, i + 1, input, result),
                    };
                assert(never_aborts(stages, i));
                assert(!(f is Abort));
                lemma_no_abort_succeeds(stages, i + 1, input, result);
            },
        }
    }
}

/// Whether stage `j` gives at most one outcome for each input.
pub open spec fn determined(stages: Seq<Box<dyn PipelineStage>>, j: int) -> bool {
    forall|x: Seq<u8>, o1: std::result::Result<Seq<u8>, ScribeError>, o2: std::result::Result<Seq<u8>, ScribeError>|
        #![trigger stages[j].spec_process(x, o1), stages[j].spec_process(x, o2)]
        stages[j].spec_process(x, o1) && stages[j].spec_process(x, o2) ==> o1 == o2
}

/// The data a run from stage `i` on `x` ends with when every failed stage
/// is skipped: a stage that succeeds passes its output on, one that fails
/// passes its own input on.
pub open spec fn skipping_run(stages: Seq<Box<dyn PipelineStage>>, i: int, x: Seq<u8>) -> Seq<u8>
    decreases stages.len() - i,
{
    if i < 0 || i >= stages.len() {
        x
    } else {
        let o = choose|o: std::result::Result<Seq<u8>, ScribeError>| #[trigger] stages[i].spec_process(x, o);
        match o {
            Ok(y) => skipping_run(stages, i + 1, y),
            Err(_) => skipping_run(stages, i + 1, x),
        }
    }
}

/// A run of stages that each give at most one outcome per input and never
/// abort ends with exactly the data of the skipping run: each stage in order
/// gets what the one before it left, a failed stage leaves its input as it was.
pub proof fn lemma_skipping_run(
    stages: Seq<Box<dyn PipelineStage>>,
    i: int,
    input: Seq<u8>,
    result: std::result::Result<Seq<u8>, ScribeError>,
)
    requires
        0 <= i,
        forall|j: int| i <= j < stages.len() ==> #[trigger] never_aborts(stages, j) && determined(stages, j),
        stages_outcome(stages, i, input, result),
    ensures
        result == Ok::<Seq<u8>, ScribeError>(skipping_run(stages, i, input)),
    decreases stages.len() - i,
{
    if i < stages.len() {
        let out = choose|out: std::result::Result<Seq<u8>, ScribeError>|
            #[trigger] stages[i].spec_process(input, out) && match out {
                Ok(next) => stages_outcome(stages, i + 1, next, result),
                Err(e) => exists|f: Fallback|
                    #[trigger] stages[i].spec_fallback(input, e, f) && match f {
                        Fallback::Abort => result matches Err(a) && is_abort_error(a),
                        _ => stages_outcome(stages, i + 1, input, result),
                    },
            };
        assert(never_aborts(stages, i) && determined(stages, i));
        let o = choose|o: std::result::Result<Seq<u8>, ScribeError>| #[trigger] stages[i].spec_process(input, o);
        assert(stages[i].spec_process(input, out));
        assert(stages[i].spec_process(input, o));
        assert(o == out);
        match out {
            Ok(next) => {
                lemma_skipping_run(stages, i + 1, next, result);
            },
            Err(e) => {
                let f = choose|f: Fallback|
                    #[trigger] stages[i].spec_fallback(input, e, f) && match f {
                        Fallback::Abort => result matches Err(a) && is_abort_error(a),
                        _ => stages_outcome(stages, i + 1, input, result),
                    };
                assert(!(f is Abort));
                lemma_skipping_run(stages, i + 1, input, result);
            },
        }
    }
}

/// A run that reaches stage `k`, where no stage from `i` up to `k` ever
/// aborts and stage `k` always aborts, fails with the abort error: whatever
/// the earlier stages did, no later stage plays a part, and no partly
/// processed data is returned.
pub proof fn lemma_abort_ends_run(
    stages: Seq<Box<dyn PipelineStage>>,
    i: int,
    k: int,
    input: Seq<u8>,
    result: std::result::Result<Seq<u8>, ScribeError>,
)
    requires
        0 <= i <= k < stages.len(),
        forall|j: int| i <= j < k ==> #[trigger] never_aborts(stages, j),
        always_aborts(stages, k),
        stages_outcome(stages, i, input, result),
    ensures
        result matches Err(e) && is_abort_error(e),
    decreases k - i,
{
    let out = choose|out: std::result::Result<Seq<u8>, ScribeError>|
        #[trigger] stages[i].spec_process(input, out) && match out {
            Ok(next) => stages_outcome(stages, i + 1, next, result),
            Err(e) => exists|f: Fallback|
                #[trigger] stages[i].spec_fallback(input, e, f) && match f {
                    Fallback::Abort => result matches Err(a) && is_abort_error(a),
                    _ => stages_outcome(stages, i + 1, input, result),
                },
        };
    if i == k {
        assert(stages[k].spec_process(input, out));
        match out {
            Ok(_) => {},
            Err(e) => {
                let f = choose|f: Fallback|
                    #[trigger] stages[i].spec_fallback(input, e, f) && match f {
                        Fallback::Abort => result matches Err(a) && is_abort_error(a),
                        _ => stages_outcome(stages, i + 1, input, result),
                    };
                assert(f is Abort);
            },
        }
    } else {
        match out {
            Ok(next) => {
                lemma_abort_ends_run(stages, i + 1, k, next, result);
            },
            Err(e) => {
                let f = choose|f: Fallback|
                    #[trigger] stages[i].spec_fallback(input, e, f) && match f {
                        Fallback::Abort => result matches Err(a) && is_abort_error(a),
                        _ => stages_outcome(stages, i + 1, input, result),
                    };
                assert(never_aborts(stages, i));
                assert(!(f is Abort));
                lemma_abort_ends_run(stages, i + 1, k, input, result);
            },
        }
    }
}

/// A stage that fails on `input`, and after every failure there may only
/// go on, is passed over: the run from it gives exactly what the run from
/// the next stage gives on the same input.
pub proof fn lemma_skipped_stage(
    stages: Seq<Box<dyn PipelineStage>>,
    i: int,
    input: Seq<u8>,
    error: ScribeError,
    fallback: Fallback,
    result: std::result::Result<Seq<u8>, ScribeError>,
)
    requires
        0 <= i < stages.len(),
        stages[i].spec_process(input, Err(error)),
        stages[i].spec_fallback(input, error, fallback),
        forall|out: std::result::Result<Seq<u8>, ScribeError>|
            #[trigger] stages[i].spec_process(input, out) ==> (out matches Err(e) && forall|f: Fallback|
                #[trigger] stages[i].spec_fallback(input, e, f) ==> !(f is Abort)),
    ensures
        stages_outcome(stages, i, input, result) <==> stages_outcome(stages, i + 1, input, result),
{
    if stages_outcome(stages, i + 1, input, result) {
        let out = Err::<Seq<u8>, ScribeError>(error);
        assert(stages[i].spec_process(input, out));
        assert(stages[i].spec_fallback(input, error, fallback));
    }
}

} // verus!
