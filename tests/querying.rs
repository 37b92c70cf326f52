use swiftide_rag::query::{EvaluationDataset, QueryError, Question, Stage};
use swiftide_rag::text::{join, split_lines};

fn answered(text: &str, context: Vec<&str>, answer: &str) -> Question {
    let mut q = Question::new(text.to_string());
    q.transform(format!("{text} (expanded)")).unwrap();
    q.retrieve(context.into_iter().map(String::from).collect()).unwrap();
    q.answered(answer.to_string()).unwrap();
    q
}

#[test]
fn stages_only_move_forward() {
    let mut q = Question::new(String::from("What?"));
    assert_eq!(q.stage, Stage::Raw);
    assert_eq!(q.answered(String::from("early")), Err(QueryError::OutOfOrder));
    assert!(q.transform(String::from("What, really?")).is_ok());
    assert!(q.transform(String::from("What, really, really?")).is_ok());
    assert_eq!(q.stage, Stage::Transformed);
    assert_eq!(q.transformed.len(), 2);
    assert!(q.retrieve(vec![String::from("ctx")]).is_ok());
    assert_eq!(q.transform(String::from("late")), Err(QueryError::OutOfOrder));
    assert_eq!(q.retrieve(vec![]), Err(QueryError::OutOfOrder));
    assert!(q.answered(String::from("an answer")).is_ok());
    assert_eq!(q.stage, Stage::Answered);
    assert_eq!(q.answered(String::from("again")), Err(QueryError::OutOfOrder));
    assert_eq!(q.answer.as_deref(), Some("an answer"));
}

#[test]
fn answer_context_is_exactly_the_retrieved_pieces() {
    let mut q = Question::new(String::from("q"));
    q.retrieve(vec![String::from("one"), String::from("two"), String::from("three")]).unwrap();
    assert_eq!(q.answer_context(), "one\n\ntwo\n\nthree");
    let empty = Question::new(String::from("q"));
    assert_eq!(empty.answer_context(), "");
}

#[test]
fn recorded_answer_becomes_ground_truth() {
    let mut d = EvaluationDataset::from_questions(vec![String::from("What does X do?")]);
    let q = answered("What does X do?", vec!["X parses"], "It parses.");
    assert!(d.record(q).is_ok());
    assert!(d.entries()[0].ground_truth.is_none());
    d.record_answers_as_ground_truth();
    let e = &d.entries()[0];
    assert_eq!(e.ground_truth.as_deref(), Some("It parses."));
    assert_eq!(e.answer.as_deref(), Some("It parses."));
    assert_eq!(e.contexts, vec!["X parses"]);
}

#[test]
fn unanswered_question_is_not_recorded() {
    let mut d = EvaluationDataset::new();
    let q = Question::new(String::from("q"));
    assert_eq!(d.record(q), Err(QueryError::OutOfOrder));
    assert!(d.entries().is_empty());
}

#[test]
fn ground_truth_kept_where_no_answer() {
    let mut d = EvaluationDataset::from_questions(vec![String::from("a"), String::from("b"), String::from("a")]);
    assert_eq!(d.entries().len(), 2);
    d.record(answered("b", vec![], "B")).unwrap();
    d.record_answers_as_ground_truth();
    assert!(d.entries()[0].ground_truth.is_none());
    assert_eq!(d.entries()[1].ground_truth.as_deref(), Some("B"));
}

#[test]
fn new_question_gets_its_own_entry() {
    let mut d = EvaluationDataset::new();
    d.record(answered("fresh", vec!["c1", "c2"], "A")).unwrap();
    assert_eq!(d.entries().len(), 1);
    assert_eq!(d.entries()[0].question, "fresh");
    assert!(d.entries()[0].ground_truth.is_none());
}

#[test]
fn single_record_is_top_context_of_its_question() {
    let record_text = "Module X parses configuration files.";
    let mut q = Question::new(String::from("What does module X do?"));
    q.retrieve(vec![record_text.to_string()]).unwrap();
    assert_eq!(q.answer_context(), record_text);
    q.answered(String::from("Module X parses configuration files.")).unwrap();
    let mut d = EvaluationDataset::new();
    d.record(q).unwrap();
    assert_eq!(d.entries()[0].contexts, vec![record_text]);
}

#[test]
fn split_lines_keeps_empty_lines() {
    assert_eq!(split_lines("a?\nb?\n"), vec!["a?", "b?", ""]);
    assert_eq!(split_lines(""), vec![""]);
    assert_eq!(split_lines("one"), vec!["one"]);
}

#[test]
fn join_puts_separator_between() {
    let parts = vec![String::from("a"), String::from("b")];
    assert_eq!(join(&parts, ", "), "a, b");
    assert_eq!(join(&Vec::new(), ", "), "");
}

#[test]
fn failed_question_is_recorded_alone() {
    let mut d = EvaluationDataset::from_questions(vec![String::from("q1"), String::from("q2")]);
    d.record_failure(String::from("q1"));
    d.record(answered("q2", vec!["c"], "A2")).unwrap();
    assert_eq!(d.failures(), &vec![String::from("q1")]);
    assert!(d.entries()[0].answer.is_none());
    assert!(d.entries()[0].contexts.is_empty());
    assert_eq!(d.entries()[1].answer.as_deref(), Some("A2"));
    d.record_answers_as_ground_truth();
    assert!(d.entries()[0].ground_truth.is_none());
    assert_eq!(d.failures().len(), 1);
}

#[test]
fn prepared_ground_truths_are_kept() {
    let rows = vec![
        (String::from("q1"), Some(String::from("reference one"))),
        (String::from("q2"), None),
        (String::from("q1"), Some(String::from("ignored"))),
    ];
    let mut d = EvaluationDataset::from_prepared(rows);
    assert_eq!(d.entries().len(), 2);
    assert_eq!(d.entries()[0].ground_truth.as_deref(), Some("reference one"));
    assert!(d.entries()[1].ground_truth.is_none());
    assert!(d.entries()[0].answer.is_none());
    d.record(answered("q1", vec!["ctx"], "generated")).unwrap();
    assert_eq!(d.entries()[0].ground_truth.as_deref(), Some("reference one"));
    assert_eq!(d.entries()[0].answer.as_deref(), Some("generated"));
}
