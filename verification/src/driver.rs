//! Planning with retries: what to run next, and how a run that failed changes
//! the plan.
//!
//! The library runs no transformer itself. Its caller asks for a plan, runs
//! the transformers of the plan in order, and reports the first that fails.
//! The edge of that transformer is then excluded and the caller asks again.
use crate::edge::{views, Edge, EdgeView};
use crate::edge_set::EdgeSet;
use crate::graph::Graph;
use crate::plan::{justified, valid, Query};
use crate::rules::searched;
use crate::variations::{Int, Variations};
use vstd::prelude::*;
use vstd::string::StringExecFns;

verus! {

/// How many plans a call asks for, unless the caller says otherwise.
pub const MAX_ATTEMPTS: usize = 10;

/// Why no value could be produced.
pub enum Failure {
    /// The graph holds no chain of transformers that answers the query.
    LackingReagent,
    /// Transformers failed, and no plan without them was found in the
    /// attempts allowed. `message` holds a line of summary and one line for
    /// each failure.
    ExecutionFailure { message: String },
}

/// What the caller does next.
pub enum Step {
    /// Run the transformers of these edges, in this order.
    Run(Vec<Edge>),
    /// Give up.
    Stop(Failure),
}

/// The state of one call for a value: the edges excluded so far, the failures
/// reported so far, and the attempts used.
pub struct Driver {
    /// The edges whose transformers failed.
    skip: EdgeSet,
    /// One report for each failure, oldest first.
    errors: Vec<String>,
    /// How many plans were asked for.
    attempts: usize,
    /// How many plans may be asked for.
    max_attempts: usize,
    /// The plan handed out last, until a failure of it is reported.
    plan: Vec<Edge>,
}

/// The report of one failure: the kind of error, a colon and a space, and the
/// error's message.
pub open spec fn report(kind: Seq<char>, message: Seq<char>) -> Seq<char> {
    kind + ": "@ + message
}

/// The lines, each but the last followed by a line feed.
pub open spec fn joined(lines: Seq<Seq<char>>) -> Seq<char>
    decreases lines.len(),
{
    if lines.len() == 0 {
        Seq::empty()
    } else if lines.len() == 1 {
        lines[0]
    } else {
        joined(lines.drop_last()) + "\n"@ + lines.last()
    }
}

/// The message of an execution failure: a line of summary, then the reports.
pub open spec fn summary(reports: Seq<Seq<char>>) -> Seq<char> {
    "Some problems occurred during the transmution process:"@ + "\n"@ + joined(reports)
}

/// The texts of `lines`.
pub open spec fn texts(lines: Seq<String>) -> Seq<Seq<char>> {
    lines.map_values(|s: String| s@)
}

impl Failure {
    /// The text that tells the failure to a reader.
    pub fn message(&self) -> (text: String)
        ensures
            text@ == match self {
                Failure::LackingReagent =>
                    "Could not create a transmutation. Missing some critical reagents. Consider adding more."@,
                Failure::ExecutionFailure { message } => message@,
            },
    {
        match self {
            Failure::LackingReagent => String::from_str(
                "Could not create a transmutation. Missing some critical reagents. Consider adding more.",
            ),
            Failure::ExecutionFailure { message } => message.clone(),
        }
    }
}

impl Driver {
    /// The edges excluded so far.
    pub closed spec fn skipped(&self) -> Set<EdgeView> {
        self.skip@
    }

    /// The reports so far, oldest first.
    pub closed spec fn reports(&self) -> Seq<Seq<char>> {
        texts(self.errors@)
    }

    /// How many plans were asked for.
    pub closed spec fn attempts(&self) -> nat {
        self.attempts as nat
    }

    /// How many plans may be asked for.
    pub closed spec fn max_attempts(&self) -> nat {
        self.max_attempts as nat
    }

    /// The plan of which a failure can be reported; empty if there is none.
    pub closed spec fn plan(&self) -> Seq<EdgeView> {
        views(self.plan@)
    }

    /// The query that is put to the graph: from `hash_in` with `hash_var_in`
    /// to `hash_out` with `hash_var_out`, without the edges excluded so far.
    pub open spec fn query(
        &self,
        hash_in: Int,
        hash_var_in: &Variations,
        hash_out: Int,
        hash_var_out: &Variations,
    ) -> Query {
        Query {
            hash_in,
            hash_var_in: hash_var_in@,
            hash_out,
            hash_var_out: hash_var_out@,
            skip_edges: self.skipped(),
        }
    }

    /// Each report stands for one excluded edge, each excluded edge for one
    /// attempt, and no edge of the plan at hand is excluded.
    pub closed spec fn wf(&self) -> bool {
        &&& self.skip.wf()
        &&& self.errors@.len() == self.skip@.len()
        &&& self.errors@.len() + (if self.plan@.len() > 0 {
            1nat
        } else {
            0nat
        }) <= self.attempts
        &&& self.attempts <= self.max_attempts
        &&& forall|i: int| 0 <= i < self.plan@.len() ==> !self.skip@.contains(#[trigger] self.plan@[i]@)
    }

    /// As many edges are excluded as failures were reported, and no more than
    /// plans were asked for.
    pub proof fn lemma_accounting(&self)
        requires
            self.wf(),
        ensures
            self.skipped().finite(),
            self.reports().len() == self.skipped().len(),
            self.skipped().len() <= self.attempts() <= self.max_attempts(),
    {
        self.skip.lemma_wf();
    }

    /// How many failures were reported.
    pub fn failures(&self) -> (n: usize)
        ensures
            n == self.reports().len(),
    {
        self.errors.len()
    }

    /// How many edges are excluded.
    pub fn excluded(&self) -> (n: usize)
        requires
            self.wf(),
        ensures
            n == self.skipped().len(),
    {
        self.skip.len()
    }

    /// How many plans were asked for.
    pub fn attempts_made(&self) -> (n: usize)
        ensures
            n == self.attempts(),
    {
        self.attempts
    }

    /// A driver that allows `max_attempts` plans.
    pub fn new(max_attempts: usize) -> (d: Driver)
        ensures
            d.wf(),
            d.skipped() == Set::<EdgeView>::empty(),
            d.reports() == Seq::<Seq<char>>::empty(),
            d.attempts() == 0,
            d.max_attempts() == max_attempts,
            d.plan() == Seq::<EdgeView>::empty(),
    {
        let d = Driver {
            skip: EdgeSet::new(),
            errors: Vec::new(),
            attempts: 0,
            max_attempts,
            plan: Vec::new(),
        };
        d
    }

    /// The message of an execution failure with the reports so far.
    fn describe(&self) -> (text: String)
        ensures
            text@ == summary(self.reports()),
    {
        let mut text = String::from_str("Some problems occurred during the transmution process:");
        text.append("\n");
        let mut i: usize = 0;
        while i < self.errors.len()
            invariant
                i <= self.errors@.len(),
                text@ == "Some problems occurred during the transmution process:"@ + "\n"@ + joined(
                    texts(self.errors@).take(i as int),
                ),
            decreases self.errors@.len() - i,
        {
            let ghost lines = texts(self.errors@);
            proof {
                assert(lines.take(i + 1).drop_last() == lines.take(i as int));
            }
            if i > 0 {
                text.append("\n");
            }
            text.append(self.errors[i].as_str());
            proof {
                if i == 0 {
                    assert(text@ == "Some problems occurred during the transmution process:"@ + "\n"@
                        + joined(lines.take(1)));
                } else {
                    assert(text@ == "Some problems occurred during the transmution process:"@ + "\n"@
                        + joined(lines.take(i + 1)));
                }
            }
            i += 1;
        }
        assert(texts(self.errors@).take(i as int) == texts(self.errors@));
        text
    }

    /// Why the call gives up: transformers failed, or there was never a plan.
    fn failure(&self) -> (f: Failure)
        ensures
            match f {
                Failure::LackingReagent => self.reports().len() == 0,
                Failure::ExecutionFailure { message } => self.reports().len() > 0 && message@
                    == summary(self.reports()),
            },
    {
        if self.errors.len() != 0 {
            Failure::ExecutionFailure { message: self.describe() }
        } else {
            Failure::LackingReagent
        }
    }

    /// Decides what the caller does next.
    ///
    /// While attempts are left, a plan is looked for that uses none of the
    /// excluded edges. If one is found, the caller runs it. If none is found,
    /// or no attempt is left, the call ends: with an execution failure if a
    /// transformer failed before, else for want of a plan.
    pub fn next(
        &mut self,
        graph: &Graph,
        hash_in: Int,
        hash_var_in: &Variations,
        hash_out: Int,
        hash_var_out: &Variations,
    ) -> (step: Step)
        requires
            old(self).wf(),
            graph.wf(),
        ensures
            final(self).wf(),
            final(self).skipped() == old(self).skipped(),
            final(self).reports() == old(self).reports(),
            final(self).max_attempts() == old(self).max_attempts(),
            match step {
                Step::Run(path) => {
                    &&& old(self).attempts() < old(self).max_attempts()
                    &&& final(self).attempts() == old(self).attempts() + 1
                    &&& final(self).plan() == views(path@)
                    &&& justified(
                        graph@,
                        old(self).query(hash_in, hash_var_in, hash_out, hash_var_out),
                        views(path@),
                    )
                    &&& searched(
                        *graph,
                        old(self).query(hash_in, hash_var_in, hash_out, hash_var_out),
                        hash_var_in,
                        hash_var_out,
                        Some(views(path@)),
                    )
                },
                Step::Stop(failure) => {
                    &&& final(self).plan() == Seq::<EdgeView>::empty()
                    &&& old(self).attempts() < old(self).max_attempts() ==> {
                        &&& final(self).attempts() == old(self).attempts() + 1
                        &&& forall|path: Seq<EdgeView>|
                            !valid(
                                graph@,
                                old(self).query(hash_in, hash_var_in, hash_out, hash_var_out),
                                path,
                            )
                        &&& searched(
                            *graph,
                            old(self).query(hash_in, hash_var_in, hash_out, hash_var_out),
                            hash_var_in,
                            hash_var_out,
                            None,
                        )
                    }
                    &&& old(self).attempts() >= old(self).max_attempts() ==> final(self).attempts()
                        == old(self).attempts()
                    &&& match failure {
                        Failure::LackingReagent => old(self).reports().len() == 0,
                        Failure::ExecutionFailure { message } => {
                            &&& old(self).reports().len() > 0
                            &&& message@ == summary(old(self).reports())
                            &&& old(self).reports().len() == old(self).skipped().len()
                            &&& old(self).skipped().len() <= old(self).max_attempts()
                        },
                    }
                },
            },
    {
        self.plan = Vec::new();
        if self.attempts >= self.max_attempts {
            return Step::Stop(self.failure());
        }
        self.attempts = self.attempts + 1;
        match graph.search(hash_in, hash_var_in, hash_out, hash_var_out, &self.skip) {
            Some(path) => {
                let mut copy: Vec<Edge> = Vec::new();
                let mut i: usize = 0;
                while i < path.len()
                    invariant
                        i <= path@.len(),
                        views(copy@) == views(path@).take(i as int),
                    decreases path@.len() - i,
                {
                    let edge = path[i].duplicate();
                    proof {
                        assert(views(path@).take(i + 1) == views(path@).take(i as int).push(
                            path@[i as int]@,
                        ));
                    }
                    copy.push(edge);
                    i += 1;
                }
                self.plan = copy;
                proof {
                    assert forall|i: int| 0 <= i < self.plan@.len() implies !self.skip@.contains(
                        #[trigger] self.plan@[i]@,
                    ) by {
                        assert(views(self.plan@)[i] == self.plan@[i]@);
                    }
                }
                Step::Run(path)
            },
            None => Step::Stop(self.failure()),
        }
    }

    /// Takes note that, of the plan handed out last, the transformer of the
    /// edge at `step` failed with an error of the given kind and message. The
    /// failure is reported as `<error_kind>: <error_message>`, and the edge is
    /// excluded from the plans to come. The edges before it are not blamed.
    pub fn failed(&mut self, step: usize, error_kind: &str, error_message: &str)
        requires
            old(self).wf(),
            step < old(self).plan().len(),
        ensures
            final(self).wf(),
            final(self).reports() == old(self).reports().push(report(error_kind@, error_message@)),
            final(self).skipped() == old(self).skipped().insert(old(self).plan()[step as int]),
            !old(self).skipped().contains(old(self).plan()[step as int]),
            final(self).skipped().len() == old(self).skipped().len() + 1,
            final(self).attempts() == old(self).attempts(),
            final(self).max_attempts() == old(self).max_attempts(),
            final(self).plan() == Seq::<EdgeView>::empty(),
    {
        proof {
            self.skip.lemma_wf();
        }
        let mut line = String::from_str(error_kind);
        line.append(": ");
        line.append(error_message);
        self.errors.push(line);
        let edge = self.plan[step].duplicate();
        self.skip.insert(edge);
        self.plan = Vec::new();
    }
}

} // verus!
