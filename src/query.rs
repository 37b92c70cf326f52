use crate::text::{join, join_with};
use vstd::prelude::*;
use vstd::string::*;

verus! {

/// How far a question has come through the query pipeline.
#[derive(Clone, Copy, Debug, PartialEq, Eq, Structural)]
pub enum Stage {
    Raw,
    Transformed,
    Retrieved,
    Answered,
}

/// The order of the stages: a question only moves forward.
pub open spec fn rank(s: Stage) -> nat {
    match s {
        Stage::Raw => 0,
        Stage::Transformed => 1,
        Stage::Retrieved => 2,
        Stage::Answered => 3,
    }
}

/// A step was asked of a question in a stage that does not allow it.
#[derive(Clone, Copy, Debug, PartialEq, Eq, Structural)]
pub enum QueryError {
    OutOfOrder,
}

/// A question on its way through the query pipeline.
pub struct Question {
    /// The text the user asked.
    pub text: String,
    /// The forms the transforms produced, in order; the last is what is searched.
    pub transformed: Vec<String>,
    /// The retrieved context.
    pub context: Vec<String>,
    pub answer: Option<String>,
    pub stage: Stage,
}

pub open spec fn opt_view(o: Option<String>) -> Option<Seq<char>> {
    match o {
        Some(s) => Some(s@),
        None => None,
    }
}

impl Question {
    /// A question that no stage has touched yet.
    pub fn new(text: String) -> (r: Question)
        ensures
            r.text@ == text@,
            r.transformed@.len() == 0,
            r.context@.len() == 0,
            r.answer is None,
            r.stage == Stage::Raw,
    {
        Question {
            text,
            transformed: Vec::new(),
            context: Vec::new(),
            answer: None,
            stage: Stage::Raw,
        }
    }

    /// Applies one transform's result: allowed before retrieval, any number
    /// of times, in the order the transforms run.
    pub fn transform(&mut self, rewritten: String) -> (r: Result<(), QueryError>)
        ensures
            (old(self).stage == Stage::Raw || old(self).stage == Stage::Transformed) <==> r is Ok,
            r is Ok ==> final(self).stage == Stage::Transformed && final(self).transformed@
                == old(self).transformed@.push(rewritten) && final(self).text
                == old(self).text && final(self).context == old(self).context
                && final(self).answer == old(self).answer,
            r is Err ==> *final(self) == *old(self),
            rank(final(self).stage) >= rank(old(self).stage),
    {
        match self.stage {
            Stage::Raw | Stage::Transformed => {
                self.transformed.push(rewritten);
                self.stage = Stage::Transformed;
                Ok(())
            },
            _ => Err(QueryError::OutOfOrder),
        }
    }

    /// Attaches the retrieved context: allowed once, before an answer.
    pub fn retrieve(&mut self, context: Vec<String>) -> (r: Result<(), QueryError>)
        ensures
            (old(self).stage == Stage::Raw || old(self).stage == Stage::Transformed) <==> r is Ok,
            r is Ok ==> final(self).stage == Stage::Retrieved && final(self).context == context
                && final(self).text == old(self).text && final(self).transformed
                == old(self).transformed && final(self).answer == old(self).answer,
            r is Err ==> *final(self) == *old(self),
            rank(final(self).stage) >= rank(old(self).stage),
    {
        match self.stage {
            Stage::Raw | Stage::Transformed => {
                self.context = context;
                self.stage = Stage::Retrieved;
                Ok(())
            },
            _ => Err(QueryError::OutOfOrder),
        }
    }

    /// The context handed to the answer step: exactly the retrieved pieces,
    /// separated by blank lines.
    pub fn answer_context(&self) -> (r: String)
        ensures
            r@ == join_with(self.context.deep_view(), seq!['\n', '\n']),
    {
        let sep = "\n\n";
        proof {
            reveal_strlit("\n\n");
            assert(sep@ =~= seq!['\n', '\n']);
        }
        join(&self.context, sep)
    }

    /// Attaches the answer: allowed once the context is attached.
    pub fn answered(&mut self, answer: String) -> (r: Result<(), QueryError>)
        ensures
            (old(self).stage == Stage::Retrieved) <==> r is Ok,
            r is Ok ==> final(self).stage == Stage::Answered && opt_view(final(self).answer) == Some(
                answer@,
            ) && final(self).text == old(self).text && final(self).transformed
                == old(self).transformed && final(self).context == old(self).context,
            r is Err ==> *final(self) == *old(self),
            rank(final(self).stage) >= rank(old(self).stage),
    {
        match self.stage {
            Stage::Retrieved => {
                self.answer = Some(answer);
                self.stage = Stage::Answered;
                Ok(())
            },
            _ => Err(QueryError::OutOfOrder),
        }
    }
}

/// One entry of an evaluation dataset.
pub struct EvalEntry {
    pub question: String,
    pub ground_truth: Option<String>,
    pub contexts: Vec<String>,
    pub answer: Option<String>,
}

/// An entry as a value: question, ground truth, contexts, answer.
pub type EntryView = (Seq<char>, Option<Seq<char>>, Seq<Seq<char>>, Option<Seq<char>>);

impl View for EvalEntry {
    type V = EntryView;

    open spec fn view(&self) -> EntryView {
        (self.question@, opt_view(self.ground_truth), self.contexts.deep_view(), opt_view(self.answer))
    }
}

/// The questions of an evaluation run and what the pipeline made of each.
pub struct EvaluationDataset {
    entries: Vec<EvalEntry>,
    failures: Vec<String>,
}

/// No question is held twice.
pub open spec fn unique_questions(d: Seq<EntryView>) -> bool {
    forall|i: int, j: int| 0 <= i < j < d.len() ==> #[trigger] d[i].0 != #[trigger] d[j].0
}

pub open spec fn holds_question(d: Seq<EntryView>, q: Seq<char>) -> bool {
    exists|i: int| 0 <= i < d.len() && d[i].0 == q
}

pub open spec fn entry_index(d: Seq<EntryView>, q: Seq<char>) -> int {
    choose|i: int| 0 <= i < d.len() && d[i].0 == q
}

/// The dataset after recording an answered question: the question's entry
/// takes the context and the answer, keeping its ground truth; a question
/// the dataset did not hold gets a new entry without ground truth.
pub open spec fn recorded(d: Seq<EntryView>, q: Seq<char>, context: Seq<Seq<char>>, answer: Seq<char>) -> Seq<EntryView> {
    if holds_question(d, q) {
        let i = entry_index(d, q);
        d.update(i, (q, d[i].1, context, Some(answer)))
    } else {
        d.push((q, None, context, Some(answer)))
    }
}

/// An entry whose answer becomes its ground truth, where it has one.
pub open spec fn answer_as_ground_truth(e: EntryView) -> EntryView {
    (e.0, if e.3 is Some { e.3 } else { e.1 }, e.2, e.3)
}

impl View for EvaluationDataset {
    type V = Seq<EntryView>;

    closed spec fn view(&self) -> Seq<EntryView> {
        self.entries@.map_values(|e: EvalEntry| e@)
    }
}

impl EvaluationDataset {
    pub open spec fn wf(&self) -> bool {
        unique_questions(self@)
    }

    /// The questions that failed at some stage, in the order they failed.
    pub closed spec fn failed(&self) -> Seq<Seq<char>> {
        self.failures.deep_view()
    }

    /// A dataset with no entry.
    pub fn new() -> (r: EvaluationDataset)
        ensures
            r.wf(),
            r.failed() == Seq::<Seq<char>>::empty(),
            r@ == Seq::<EntryView>::empty(),
    {
        let r = EvaluationDataset { entries: Vec::new(), failures: Vec::new() };
        assert(r.failed() =~= Seq::<Seq<char>>::empty());
        assert(r@ =~= Seq::<EntryView>::empty());
        r
    }

    /// The entries, in the order they were added.
    pub fn entries(&self) -> (r: &Vec<EvalEntry>)
        ensures
            r@.map_values(|e: EvalEntry| e@) == self@,
    {
        &self.entries
    }

    fn position(&self, question: &String) -> (r: Option<usize>)
        ensures
            match r {
                Some(i) => i < self@.len() && self@[i as int].0 == question@,
                None => !holds_question(self@, question@),
            },
    {
        let mut i: usize = 0;
        while i < self.entries.len()
            invariant
                i <= self.entries@.len(),
                forall|j: int| 0 <= j < i ==> self@[j].0 != question@,
            decreases self.entries.len() - i,
        {
            if self.entries[i].question == *question {
                return Some(i);
            }
            i += 1;
        }
        None
    }

    /// Adds a question to be asked, without ground truth; a question already
    /// held is left as it is.
    pub fn add_question(&mut self, question: String)
        requires
            old(self).wf(),
        ensures
            final(self).wf(),
            final(self).failed() == old(self).failed(),
            final(self)@ == if holds_question(old(self)@, question@) {
                old(self)@
            } else {
                old(self)@.push((question@, None, Seq::empty(), None))
            },
    {
        if self.position(&question).is_none() {
            let e = EvalEntry { question, ground_truth: None, contexts: Vec::new(), answer: None };
            self.entries.push(e);
            proof {
                assert(self@ =~= old(self)@.push(e@));
                assert(e.contexts.deep_view() =~= Seq::<Seq<char>>::empty());
            }
        }
    }

    /// Adds a question with the reference answer it is to be scored against;
    /// a question already held is left as it is.
    pub fn add_prepared(&mut self, question: String, ground_truth: Option<String>)
        requires
            old(self).wf(),
        ensures
            final(self).wf(),
            final(self).failed() == old(self).failed(),
            final(self)@ == if holds_question(old(self)@, question@) {
                old(self)@
            } else {
                old(self)@.push((question@, opt_view(ground_truth), Seq::empty(), None))
            },
    {
        if self.position(&question).is_none() {
            let e = EvalEntry { question, ground_truth, contexts: Vec::new(), answer: None };
            self.entries.push(e);
            proof {
                assert(self@ =~= old(self)@.push(e@));
                assert(e.contexts.deep_view() =~= Seq::<Seq<char>>::empty());
            }
        }
    }

    /// A dataset of prepared rows, each a question and its optional ground
    /// truth, in order. Where a question comes twice, its first row counts.
    pub fn from_prepared(rows: Vec<(String, Option<String>)>) -> (r: EvaluationDataset)
        ensures
            r.wf(),
            r.failed() == Seq::<Seq<char>>::empty(),
            forall|k: int|
                0 <= k < rows@.len() && (forall|k2: int|
                    0 <= k2 < k ==> rows@[k2].0@ != (#[trigger] rows@[k]).0@) ==> exists|i: int|
                    0 <= i < r@.len() && r@[i].0 == rows@[k].0@ && r@[i].1 == opt_view(rows@[k].1),
            forall|i: int|
                0 <= i < r@.len() ==> (#[trigger] r@[i]).3 is None && r@[i].2.len() == 0 && exists|
                    k: int,
                | 0 <= k < rows@.len() && rows@[k].0@ == r@[i].0 && opt_view(rows@[k].1) == r@[i].1,
    {
        let mut d = EvaluationDataset::new();
        let mut rest = rows;
        let ghost all = rest@;
        while rest.len() > 0
            invariant
                d.wf(),
                d.failed() == Seq::<Seq<char>>::empty(),
                rest.len() <= all.len(),
                rest@ == all.subrange(all.len() - rest.len(), all.len() as int),
                forall|k: int|
                    0 <= k < all.len() - rest.len() ==> holds_question(d@, (#[trigger] all[k]).0@),
                forall|k: int|
                    0 <= k < all.len() - rest.len() && (forall|k2: int|
                        0 <= k2 < k ==> all[k2].0@ != (#[trigger] all[k]).0@) ==> exists|i: int|
                        0 <= i < d@.len() && d@[i].0 == all[k].0@ && d@[i].1 == opt_view(all[k].1),
                forall|i: int|
                    0 <= i < d@.len() ==> (#[trigger] d@[i]).3 is None && d@[i].2.len() == 0
                        && exists|k: int|
                        0 <= k < all.len() - rest.len() && all[k].0@ == d@[i].0 && opt_view(all[k].1)
                            == d@[i].1,
            decreases rest.len(),
        {
            let ghost k0 = all.len() - rest.len();
            let ghost before = d@;
            let row = rest.remove(0);
            proof {
                assert(rest@ =~= all.subrange(k0 + 1, all.len() as int));
                assert(row == all[k0]);
            }
            let (q, gt) = row;
            d.add_prepared(q, gt);
            proof {
                assert forall|k: int| 0 <= k < k0 + 1 implies holds_question(d@, (#[trigger] all[k]).0@) by {
                    if k < k0 {
                        let i = choose|i: int| 0 <= i < before.len() && before[i].0 == all[k].0@;
                        assert(d@[i] == before[i]);
                    } else if !holds_question(before, all[k].0@) {
                        assert(d@[before.len() as int].0 == all[k].0@);
                    }
                }
                assert forall|k: int|
                    0 <= k < k0 + 1 && (forall|k2: int|
                        0 <= k2 < k ==> all[k2].0@ != (#[trigger] all[k]).0@) implies exists|i: int|
                    0 <= i < d@.len() && d@[i].0 == all[k].0@ && d@[i].1 == opt_view(all[k].1) by {
                    if k < k0 {
                        let i = choose|i: int|
                            0 <= i < before.len() && before[i].0 == all[k].0@ && before[i].1 == opt_view(
                                all[k].1,
                            );
                        assert(d@[i] == before[i]);
                    } else {
                        if holds_question(before, all[k].0@) {
                            let i = choose|i: int| 0 <= i < before.len() && before[i].0 == all[k].0@;
                            let k3 = choose|k3: int|
                                0 <= k3 < k0 && all[k3].0@ == before[i].0 && opt_view(all[k3].1)
                                    == before[i].1;
                            assert(all[k3].0@ != all[k].0@);
                        }
                        assert(d@[before.len() as int].0 == all[k].0@);
                    }
                }
                assert forall|i: int| 0 <= i < d@.len() implies (#[trigger] d@[i]).3 is None
                    && d@[i].2.len() == 0 && exists|k: int|
                    0 <= k < k0 + 1 && all[k].0@ == d@[i].0 && opt_view(all[k].1) == d@[i].1 by {
                    if i < before.len() {
                        assert(d@[i] == before[i]);
                        let k3 = choose|k3: int|
                            0 <= k3 < k0 && all[k3].0@ == before[i].0 && opt_view(all[k3].1)
                                == before[i].1;
                        assert(0 <= k3 < k0 + 1);
                    } else {
                        assert(all[k0].0@ == d@[i].0 && opt_view(all[k0].1) == d@[i].1);
                    }
                }
            }
        }
        d
    }

    /// A dataset asking each of `questions` once, in order.
    pub fn from_questions(questions: Vec<String>) -> (r: EvaluationDataset)
        ensures
            r.wf(),
            forall|k: int| 0 <= k < questions@.len() ==> holds_question(r@, #[trigger] questions@[k]@),
            forall|i: int|
                0 <= i < r@.len() ==> (#[trigger] r@[i]).1 is None && r@[i].3 is None && r@[i].2.len()
                    == 0 && exists|k: int| 0 <= k < questions@.len() && questions@[k]@ == r@[i].0,
    {
        let mut d = EvaluationDataset::new();
        let mut rest = questions;
        let ghost all = rest@;
        while rest.len() > 0
            invariant
                d.wf(),
                rest.len() <= all.len(),
                rest@ == all.subrange(all.len() - rest.len(), all.len() as int),
                forall|k: int| 0 <= k < all.len() - rest.len() ==> holds_question(d@, #[trigger] all[k]@),
                forall|i: int|
                    0 <= i < d@.len() ==> (#[trigger] d@[i]).1 is None && d@[i].3 is None && d@[i].2.len()
                        == 0 && exists|k: int| 0 <= k < all.len() && all[k]@ == d@[i].0,
            decreases rest.len(),
        {
            let ghost k0 = all.len() - rest.len();
            let ghost before = d@;
            let q = rest.remove(0);
            proof {
                assert(rest@ =~= all.subrange(k0 + 1, all.len() as int));
                assert(q == all[k0]);
            }
            d.add_question(q);
            proof {
                assert forall|k: int| 0 <= k < k0 + 1 implies holds_question(d@, #[trigger] all[k]@) by {
                    if k < k0 {
                        let i = choose|i: int| 0 <= i < before.len() && before[i].0 == all[k]@;
                        assert(d@[i] == before[i]);
                    } else if !holds_question(before, all[k]@) {
                        assert(d@[before.len() as int].0 == all[k]@);
                    } else {
                        assert(d@ == before);
                    }
                }
                assert forall|i: int| 0 <= i < d@.len() implies (#[trigger] d@[i]).1 is None
                    && d@[i].3 is None && d@[i].2.len() == 0 && exists|k: int|
                    0 <= k < all.len() && all[k]@ == d@[i].0 by {
                    if i < before.len() {
                        assert(d@[i] == before[i]);
                    } else {
                        assert(all[k0]@ == d@[i].0);
                    }
                }
            }
        }
        d
    }

    /// Records a question that has been answered: its entry takes the
    /// retrieved context and the answer. A question that is not answered yet
    /// is refused and the dataset is left as it was.
    pub fn record(&mut self, q: Question) -> (r: Result<(), QueryError>)
        requires
            old(self).wf(),
        ensures
            final(self).wf(),
            final(self).failed() == old(self).failed(),
            r is Ok <==> q.stage == Stage::Answered && q.answer is Some,
            r is Ok ==> final(self)@ == recorded(
                old(self)@,
                q.text@,
                q.context.deep_view(),
                q.answer->Some_0@,
            ),
            r is Err ==> final(self)@ == old(self)@,
    {
        if q.stage != Stage::Answered {
            return Err(QueryError::OutOfOrder);
        }
        let ghost qv = q.text@;
        let ghost cv = q.context.deep_view();
        match q.answer {
            None => Err(QueryError::OutOfOrder),
            Some(answer) => {
                let ghost av = answer@;
                match self.position(&q.text) {
                    Some(i) => {
                        let ghost before = self@;
                        let gt = self.entries[i].ground_truth.clone();
                        let e = EvalEntry {
                            question: q.text,
                            ground_truth: gt,
                            contexts: q.context,
                            answer: Some(answer),
                        };
                        self.entries.set(i, e);
                        proof {
                            assert(i as int == entry_index(before, qv));
                            assert(self@ =~= before.update(i as int, (qv, before[i as int].1, cv, Some(av))));
                        }
                    },
                    None => {
                        let e = EvalEntry {
                            question: q.text,
                            ground_truth: None,
                            contexts: q.context,
                            answer: Some(answer),
                        };
                        self.entries.push(e);
                        proof {
                            assert(self@ =~= old(self)@.push((qv, None, cv, Some(av))));
                        }
                    },
                }
                Ok(())
            },
        }
    }

    /// Records that a question failed at some stage: it is listed among the
    /// failures, and no entry is given an answer or a context for it; the
    /// entries are left as they are.
    pub fn record_failure(&mut self, question: String)
        ensures
            final(self)@ == old(self)@,
            final(self).failed() == old(self).failed().push(question@),
    {
        let ghost before = self.failures.deep_view();
        self.failures.push(question);
        proof {
            assert(self.failures.deep_view() =~= before.push(question@));
        }
    }

    /// The questions that failed, in the order they failed.
    pub fn failures(&self) -> (r: &Vec<String>)
        ensures
            r.deep_view() == self.failed(),
    {
        &self.failures
    }

    /// Copies each entry's answer, where it has one, into its ground truth.
    pub fn record_answers_as_ground_truth(&mut self)
        requires
            old(self).wf(),
        ensures
            final(self).wf(),
            final(self).failed() == old(self).failed(),
            final(self)@ == old(self)@.map_values(|e: EntryView| answer_as_ground_truth(e)),
    {
        let n = self.entries.len();
        let mut i: usize = 0;
        while i < n
            invariant
                n == self.entries@.len(),
                n == old(self)@.len(),
                self.failures == old(self).failures,
                i <= n,
                forall|k: int| 0 <= k < i ==> self@[k] == answer_as_ground_truth(old(self)@[k]),
                forall|k: int| i <= k < n ==> self@[k] == old(self)@[k],
            decreases n - i,
        {
            let ghost before = self@;
            let ghost before_entries = self.entries@;
            let a: Option<String> = match &self.entries[i].answer {
                Some(s) => Some(s.clone()),
                None => None,
            };
            if a.is_some() {
                let mut e = self.entries.remove(i);
                e.ground_truth = a;
                self.entries.insert(i, e);
                proof {
                    assert(self.entries@ =~= before_entries.update(i as int, e));
                    assert(self@[i as int] == answer_as_ground_truth(before[i as int]));
                }
            } else {
                proof {
                    assert(before[i as int].3 is None);
                    assert(answer_as_ground_truth(before[i as int]) == before[i as int]);
                }
            }
            proof {
                assert(before[i as int] == old(self)@[i as int]);
                assert(self@[i as int] == answer_as_ground_truth(old(self)@[i as int]));
                assert forall|k: int| 0 <= k < i + 1 implies self@[k] == answer_as_ground_truth(
                    old(self)@[k],
                ) by {
                    if k < i {
                        assert(self@[k] == before[k]);
                        assert(before[k] == answer_as_ground_truth(old(self)@[k]));
                    }
                }
                assert forall|k: int| i + 1 <= k < n implies self@[k] == old(self)@[k] by {
                    assert(self@[k] == before[k]);
                }
            }
            i += 1;
        }
        assert(self@ =~= old(self)@.map_values(|e: EntryView| answer_as_ground_truth(e)));
    }
}

/// Recording an answered question and then its answer as ground truth gives
/// an entry for that question whose ground truth is the answer and whose
/// contexts are the retrieved ones.
pub proof fn lemma_ground_truth_round_trip(
    d: Seq<EntryView>,
    q: Seq<char>,
    context: Seq<Seq<char>>,
    answer: Seq<char>,
)
    requires
        unique_questions(d),
    ensures
        ({
            let after = recorded(d, q, context, answer).map_values(
                |e: EntryView| answer_as_ground_truth(e),
            );
            exists|i: int|
                0 <= i < after.len() && after[i] == (q, Some(answer), context, Some(answer))
        }),
{
    let rec = recorded(d, q, context, answer);
    let after = rec.map_values(|e: EntryView| answer_as_ground_truth(e));
    if holds_question(d, q) {
        let i = entry_index(d, q);
        assert(after[i] == (q, Some(answer), context, Some(answer)));
    } else {
        let i = d.len() as int;
        assert(after[i] == (q, Some(answer), context, Some(answer)));
    }
}

} // verus!
