use vstd::prelude::*;
use crate::error::{Result, ScribeError};
use crate::storage::frame::LogFrame;
use super::stage::{batch_result_view, LogBatch, Pipeline};

verus! {

/// A test on a log frame that selects a route.
pub trait RouteCondition: Send + Sync {
    /// What the condition promises of answering `r` for `frame`; a condition
    /// that states nothing leaves it true.
    open spec fn spec_answers(&self, frame: LogFrame, r: bool) -> bool {
        true
    }

    fn matches(&self, frame: &LogFrame) -> (r: bool)
        ensures
            self.spec_answers(*frame, r),
    ;
}

/// A closure used as a route condition.
pub struct FnCondition<F> {
    f: F,
}

impl<F> FnCondition<F> {
    /// The closure that decides.
    pub closed spec fn condition(&self) -> F {
        self.f
    }
}

/// What closure `f` answering `r` for `frame` means: where the closure's own
/// precondition holds for the frame, `r` is an answer its postcondition allows.
pub open spec fn closure_answers<F: Fn(&LogFrame) -> bool>(f: F, frame: LogFrame, r: bool) -> bool {
    call_requires(f, (&frame,)) ==> call_ensures(f, (&frame,), r)
}

impl<F: Fn(&LogFrame) -> bool + Send + Sync> RouteCondition for FnCondition<F> {
    open spec fn spec_answers(&self, frame: LogFrame, r: bool) -> bool {
        closure_answers(self.condition(), frame, r)
    }

    /// What the closure answers for `frame`.
    fn matches(&self, frame: &LogFrame) -> (r: bool) {
        call_condition(&self.f, frame)
    }
}

/// `Fn::call` of a caller-supplied condition on a frame. Where the closure's
/// precondition holds for the frame, its answer is one that the closure's
/// postcondition allows; where it does not, nothing is stated of the answer.
#[verifier::external_body]
fn call_condition<F: Fn(&LogFrame) -> bool>(f: &F, frame: &LogFrame) -> (r: bool)
    ensures
        closure_answers(*f, *frame, r),
{
    f(frame)
}

/// A condition and the pipeline it selects.
pub struct Route {
    pub condition: Box<dyn RouteCondition>,
    pub pipeline: Pipeline,
}

/// Picks, per log frame, the pipeline that processes its data.
pub struct Router {
    routes: Vec<Route>,
    default_pipeline: Option<Pipeline>,
}

/// The outcomes that routing `input` can give when the first matching
/// route is `k` (`k == routes.len()` when none matches).
pub open spec fn routed_outcome(
    routes: Seq<Route>,
    default_pipeline: Option<Pipeline>,
    k: int,
    input: Seq<u8>,
    result: std::result::Result<Seq<u8>, ScribeError>,
) -> bool {
    if 0 <= k < routes.len() {
        routes[k].pipeline.spec_outcome(input, result)
    } else {
        match default_pipeline {
            Some(p) => p.spec_outcome(input, result),
            None => result == Ok::<Seq<u8>, ScribeError>(input),
        }
    }
}

impl Router {
    pub closed spec fn routes(&self) -> Seq<Route> {
        self.routes@
    }

    pub closed spec fn default_route(&self) -> Option<Pipeline> {
        self.default_pipeline
    }

    pub fn new() -> (r: Router)
        ensures
            r.routes().len() == 0,
            r.default_route() is None,
    {
        Router { routes: Vec::new(), default_pipeline: None }
    }

    /// The router with a route appended: frames for which `condition` holds
    /// go to `pipeline`, unless an earlier route matches.
    pub fn route<F>(self, condition: F, pipeline: Pipeline) -> (r: Router)
        where
            F: Fn(&LogFrame) -> bool + Send + Sync + 'static,
        ensures
            r.default_route() == self.default_route(),
            r.routes().len() == self.routes().len() + 1,
            forall|i: int| 0 <= i < self.routes().len() ==> r.routes()[i] == self.routes()[i],
            r.routes().last().pipeline == pipeline,
            forall|frame: LogFrame, b: bool| #[trigger] r.routes().last().condition.spec_answers(frame, b)
                == closure_answers(condition, frame, b),
    {
        let Router { routes, default_pipeline } = self;
        let mut routes = routes;
        let ghost before = routes@;
        let ghost cond = condition;
        let route = Route { condition: Box::new(FnCondition { f: condition }), pipeline };
        assert(forall|frame: LogFrame, b: bool| #[trigger] route.condition.spec_answers(frame, b) == closure_answers(cond, frame, b));
        let ghost added = route;
        routes.push(route);
        proof {
            vstd::seq::axiom_seq_push_len(before, added);
            vstd::seq::axiom_seq_push_index_same(before, added, before.len() as int);
            assert forall|i: int| 0 <= i < before.len() implies routes@[i] == before[i] by {
                vstd::seq::axiom_seq_push_index_different(before, added, i);
            }
            assert(routes@.last() == added);
            assert forall|frame: LogFrame, b: bool| #[trigger] routes@.last().condition.spec_answers(frame, b)
                == closure_answers(cond, frame, b) by {
                assert(added.condition.spec_answers(frame, b) == closure_answers(cond, frame, b));
            }
        }
        Router { routes, default_pipeline }
    }

    /// The router with `pipeline` as the pipeline of unmatched frames.
    pub fn default(self, pipeline: Pipeline) -> (r: Router)
        ensures
            r.routes() == self.routes(),
            r.default_route() == Some(pipeline),
    {
        let mut router = self;
        router.default_pipeline = Some(pipeline);
        router
    }

    pub fn route_count(&self) -> (n: usize)
        ensures
            n == self.routes().len(),
    {
        self.routes.len()
    }

    pub fn has_default(&self) -> (b: bool)
        ensures
            b == self.default_route() is Some,
    {
        self.default_pipeline.is_some()
    }

    /// Processes `data` with the pipeline of the first route whose condition
    /// holds for `frame`, else with the default pipeline, else returns it
    /// unchanged. The conditions are asked in route order, and none after the
    /// first that holds: the chosen route `k` is one whose condition answered
    /// `true` while every earlier one answered `false`.
    pub fn dispatch(&self, frame: &LogFrame, data: LogBatch) -> (r: Result<LogBatch>)
        ensures
            exists|k: int|
                0 <= k <= self.routes().len()
                && (forall|j: int| 0 <= j < k ==> #[trigger] self.routes()[j].condition.spec_answers(*frame, false))
                && (k < self.routes().len() ==> self.routes()[k].condition.spec_answers(*frame, true))
                && #[trigger] routed_outcome(
                    self.routes(),
                    self.default_route(),
                    k,
                    data@,
                    batch_result_view(&r),
                ),
    {
        let ghost input = data@;
        let mut i: usize = 0;
        while i < self.routes.len()
            invariant
                i <= self.routes@.len(),
                input == data@,
                forall|j: int| 0 <= j < i ==> #[trigger] self.routes()[j].condition.spec_answers(*frame, false),
            decreases self.routes@.len() - i,
        {
            let hit = self.routes[i].condition.matches(frame);
            if hit {
                let r = self.routes[i].pipeline.process(data);
                assert(routed_outcome(self.routes(), self.default_route(), i as int, input, batch_result_view(&r)));
                return r;
            }
            assert(self.routes()[i as int].condition.spec_answers(*frame, false));
            i = i + 1;
        }
        let r = match &self.default_pipeline {
            Some(p) => p.process(data),
            None => Ok(data),
        };
        assert(routed_outcome(self.routes(), self.default_route(), self.routes@.len() as int, input, batch_result_view(&r)));
        r
    }
}



} // verus!
