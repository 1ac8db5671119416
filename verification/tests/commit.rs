use nixui_core::commit::{begin_commit, CommitError, CommitJob, Reply, Request, Step};
use nixui_core::state::ConfigState;
use nixui_core::sync::toggle;

fn pair(k: &str, v: &str) -> (String, String) {
    (String::from(k), String::from(v))
}

fn sample() -> ConfigState {
    ConfigState::from_parsed(
        String::from("{ a = true; b = \"x\"; }"),
        vec![pair("a", "true"), pair("b", "x")],
    )
}

fn job_of(step: Step) -> CommitJob {
    match step {
        Step::Pending(job) => job,
        Step::Done(_) => panic!("the commit has ended"),
    }
}

fn end_of(step: Step) -> Result<ConfigState, ConfigState> {
    match step {
        Step::Done(result) => result,
        Step::Pending(_) => panic!("the commit has not ended"),
    }
}

#[test]
fn commit_of_a_clean_state_asks_for_nothing() {
    match begin_commit(sample()) {
        Step::Done(Ok(s)) => assert!(s == sample()),
        _ => panic!("a clean state has nothing to commit"),
    }
}

#[test]
fn commit_writes_stores_and_parses() {
    let s = toggle(sample(), 0).unwrap();
    let job = job_of(begin_commit(s));
    assert_eq!(
        job.request(),
        Request::Write {
            text: String::from("{ a = true; b = \"x\"; }"),
            key: String::from("a"),
            value: String::from("false"),
        }
    );
    let job = job_of(job.advance(Reply::Written(Some(String::from("{ a = false; b = \"x\"; }")))));
    assert_eq!(job.request(), Request::Store { text: String::from("{ a = false; b = \"x\"; }") });
    let job = job_of(job.advance(Reply::Stored(true)));
    assert_eq!(job.request(), Request::Parse { text: String::from("{ a = false; b = \"x\"; }") });
    let s = end_of(job.advance(Reply::Parsed(Some(vec![pair("b", "x"), pair("a", "false")]))))
        .unwrap();
    assert_eq!(s.document(), "{ a = false; b = \"x\"; }");
    assert_eq!(s.committed_value("a"), Some(String::from("false")));
    assert_eq!(s.committed_value("b"), Some(String::from("x")));
    assert_eq!(s.content_of("a"), Some(String::from("false")));
    assert_eq!(s.content_of("b"), Some(String::from("x")));
    assert_eq!(s.keys(), vec![String::from("a"), String::from("b")]);
    assert!(s.dirty_writes().is_empty());
}

#[test]
fn each_write_works_on_the_text_of_the_one_before() {
    let s = sample().edit("b", "y").edit("a", "false");
    let job = job_of(begin_commit(s));
    assert_eq!(
        job.request(),
        Request::Write {
            text: String::from("{ a = true; b = \"x\"; }"),
            key: String::from("a"),
            value: String::from("false"),
        }
    );
    let job = job_of(job.advance(Reply::Written(Some(String::from("one")))));
    assert_eq!(
        job.request(),
        Request::Write { text: String::from("one"), key: String::from("b"), value: String::from("y") }
    );
    let job = job_of(job.advance(Reply::Written(Some(String::from("two")))));
    assert_eq!(job.request(), Request::Store { text: String::from("two") });
}

#[test]
fn a_failed_write_rolls_back() {
    let before = sample().edit("b", "y").edit("a", "false");
    let job = job_of(begin_commit(before.clone()));
    let job = job_of(job.advance(Reply::Written(Some(String::from("one")))));
    let s = end_of(job.advance(Reply::Written(None))).unwrap_err();
    assert!(s == before);
    assert_eq!(s.document(), "{ a = true; b = \"x\"; }");
    assert_eq!(s.content_of("b"), Some(String::from("y")));
    assert_eq!(s.committed_value("b"), Some(String::from("x")));
}

#[test]
fn a_failed_store_rolls_back() {
    let before = sample().edit("b", "y");
    let job = job_of(begin_commit(before.clone()));
    let job = job_of(job.advance(Reply::Written(Some(String::from("one")))));
    let s = end_of(job.advance(Reply::Stored(false))).unwrap_err();
    assert!(s == before);
    assert_eq!(s.document(), "{ a = true; b = \"x\"; }");
}

#[test]
fn a_failed_parse_rolls_back() {
    let before = sample().edit("b", "y");
    let job = job_of(begin_commit(before.clone()));
    let job = job_of(job.advance(Reply::Written(Some(String::from("one")))));
    let job = job_of(job.advance(Reply::Stored(true)));
    let s = end_of(job.advance(Reply::Parsed(None))).unwrap_err();
    assert!(s == before);
}

#[test]
fn a_reply_to_another_request_rolls_back() {
    let before = sample().edit("b", "y");
    let job = job_of(begin_commit(before.clone()));
    let s = end_of(job.advance(Reply::Stored(true))).unwrap_err();
    assert!(s == before);
    let job = job_of(begin_commit(before.clone()));
    let job = job_of(job.advance(Reply::Written(Some(String::from("one")))));
    let s = end_of(job.advance(Reply::Parsed(Some(Vec::new())))).unwrap_err();
    assert!(s == before);
    let job = job_of(begin_commit(before.clone()));
    let job = job_of(job.advance(Reply::Written(Some(String::from("one")))));
    let job = job_of(job.advance(Reply::Stored(true)));
    let s = end_of(job.advance(Reply::Written(Some(String::from("two"))))).unwrap_err();
    assert!(s == before);
}

#[test]
fn a_job_can_be_given_up() {
    let before = sample().edit("b", "y").move_cursor("b", (1, 1));
    let job = job_of(begin_commit(before.clone()));
    let s = job.abort();
    assert!(s == before);
    assert_eq!(s.cursor_of("b"), Some((1, 1)));
}

#[test]
fn a_second_commit_has_nothing_to_write() {
    let s = toggle(sample(), 0).unwrap();
    let job = job_of(begin_commit(s));
    let job = job_of(job.advance(Reply::Written(Some(String::from("new")))));
    let job = job_of(job.advance(Reply::Stored(true)));
    let s = end_of(job.advance(Reply::Parsed(Some(vec![pair("a", "false"), pair("b", "x")]))))
        .unwrap();
    match begin_commit(s.clone()) {
        Step::Done(Ok(again)) => assert!(again == s),
        _ => panic!("the second commit found something to write"),
    }
}

#[test]
fn a_commit_takes_the_keys_that_the_parse_gives() {
    let s = sample().edit("b", "y");
    let job = job_of(begin_commit(s));
    let job = job_of(job.advance(Reply::Written(Some(String::from("new")))));
    let job = job_of(job.advance(Reply::Stored(true)));
    let s = end_of(job.advance(Reply::Parsed(Some(vec![pair("z", "1"), pair("b", "y")])))).unwrap();
    assert_eq!(s.keys(), vec![String::from("b"), String::from("z")]);
    assert_eq!(s.content_of("a"), None);
    assert_eq!(s.committed_value("z"), Some(String::from("1")));
    assert_eq!(s.document(), "new");
}

#[test]
fn a_failure_has_its_cause() {
    let job = job_of(begin_commit(sample().edit("b", "y")));
    assert_eq!(job.failure(&Reply::Written(None)), Some(CommitError::WriteError));
    assert_eq!(job.failure(&Reply::Written(Some(String::from("t")))), None);
    assert_eq!(job.failure(&Reply::Stored(true)), Some(CommitError::OutOfTurn));
    assert_eq!(job.failure(&Reply::Parsed(None)), Some(CommitError::OutOfTurn));
    let job = job_of(job.advance(Reply::Written(Some(String::from("t")))));
    assert_eq!(job.failure(&Reply::Stored(false)), Some(CommitError::IoError));
    assert_eq!(job.failure(&Reply::Stored(true)), None);
    assert_eq!(job.failure(&Reply::Written(None)), Some(CommitError::OutOfTurn));
    let job = job_of(job.advance(Reply::Stored(true)));
    assert_eq!(job.failure(&Reply::Parsed(None)), Some(CommitError::ParseError));
    assert_eq!(job.failure(&Reply::Parsed(Some(Vec::new()))), None);
    assert_eq!(job.failure(&Reply::Stored(true)), Some(CommitError::OutOfTurn));
}

#[test]
fn a_commit_of_an_empty_parse_leaves_no_entries() {
    let job = job_of(begin_commit(sample().edit("b", "y")));
    let job = job_of(job.advance(Reply::Written(Some(String::from("{ }")))));
    let job = job_of(job.advance(Reply::Stored(true)));
    let s = end_of(job.advance(Reply::Parsed(Some(Vec::new())))).unwrap();
    assert_eq!(s.len(), 0);
    assert_eq!(s.document(), "{ }");
    assert_eq!(s.committed_value("a"), None);
}
