//! The commit: writing the dirty entries back.
//!
//! Writing, storing and parsing are done by whoever holds the document's
//! file and its grammar, so a commit is a job that asks for one piece of
//! outside work at a time and is told how it went: [`begin_commit`] gives
//! the job, [`CommitJob::request`] says what to do next and
//! [`CommitJob::advance`] takes the result. The job decides; it does nothing
//! to the outside itself. What a whole commit comes to, for a writer, a
//! store and a parser given as functions, is [`commit`].

use vstd::prelude::*;

use crate::state::{lemma_mirror, mirror, ConfigState, StateView};
use crate::table::{
    canonical, get, has_key, lemma_canonical, lemma_get_at, lemma_get_has_key, lemma_sorted_push,
    rows_view, sorted, Rows,
};
use crate::text::key_lt;

verus! {

/// The state that goes on after a handler: the new state where it
/// succeeded, the rolled-back state where it failed.
pub open spec fn settled(result: Result<StateView, StateView>) -> StateView {
    match result {
        Ok(s) => s,
        Err(s) => s,
    }
}

/// Why a commit failed.
#[derive(Clone, Copy, Debug, PartialEq, Eq, Structural)]
pub enum CommitError {
    /// The writer could not write a value for a key into the text.
    WriteError,
    /// The text could not be stored.
    IoError,
    /// The stored text could not be parsed.
    ParseError,
    /// The reply answered another request than the one the job had made.
    OutOfTurn,
}

/// Where a commit stands.
#[derive(Clone, Copy, Debug, PartialEq, Eq, Structural)]
pub enum Phase {
    /// Dirty rows are being written into the text, one by one.
    Writing,
    /// The final text is being stored.
    Storing,
    /// The stored text is being parsed.
    Parsing,
}

/// One piece of outside work that a commit asks for, as plain values.
pub enum RequestView {
    Write { text: Seq<char>, key: Seq<char>, value: Seq<char> },
    Store { text: Seq<char> },
    Parse { text: Seq<char> },
}

/// One piece of outside work that a commit asks for.
#[derive(Debug, PartialEq, Eq)]
pub enum Request {
    /// Write `value` for `key` into `text` and hand back the new text.
    Write { text: String, key: String, value: String },
    /// Store `text` durably.
    Store { text: String },
    /// Parse `text` into keys and values.
    Parse { text: String },
}

impl View for Request {
    type V = RequestView;

    open spec fn view(&self) -> RequestView {
        match self {
            Request::Write { text, key, value } => RequestView::Write {
                text: text@,
                key: key@,
                value: value@,
            },
            Request::Store { text } => RequestView::Store { text: text@ },
            Request::Parse { text } => RequestView::Parse { text: text@ },
        }
    }
}

/// How a piece of outside work went, as plain values.
pub enum ReplyView {
    Written(Option<Seq<char>>),
    Stored(bool),
    Parsed(Option<Rows<Seq<char>>>),
}

/// How a piece of outside work went.
#[derive(Debug, PartialEq, Eq)]
pub enum Reply {
    /// The text after the write, or `None` where the writer failed.
    Written(Option<String>),
    /// Whether the text was stored.
    Stored(bool),
    /// The keys and values of the text, in any order, or `None` where the
    /// parser failed.
    Parsed(Option<Vec<(String, String)>>),
}

impl View for Reply {
    type V = ReplyView;

    open spec fn view(&self) -> ReplyView {
        match self {
            Reply::Written(Some(text)) => ReplyView::Written(Some(text@)),
            Reply::Written(None) => ReplyView::Written(None),
            Reply::Stored(ok) => ReplyView::Stored(*ok),
            Reply::Parsed(Some(pairs)) => ReplyView::Parsed(Some(rows_view(pairs@))),
            Reply::Parsed(None) => ReplyView::Parsed(None),
        }
    }
}

/// A commit under way, as plain values.
pub struct JobView {
    /// The state before the commit, to which a failure rolls back.
    pub before: StateView,
    /// The rows to write back.
    pub writes: Rows<Seq<char>>,
    /// How many of them are written.
    pub done: int,
    /// The text as the writes so far have left it.
    pub text: Seq<char>,
    /// Where the commit stands.
    pub phase: Phase,
}

/// A step of a commit as plain values.
pub enum StepView {
    Done(Result<StateView, StateView>),
    Pending(JobView),
}

impl JobView {
    /// While a job writes, a row is left to write; after that, none is.
    pub open spec fn wf(self) -> bool {
        &&& self.before.wf()
        &&& self.writes == self.before.writes()
        &&& 0 <= self.done <= self.writes.len()
        &&& self.phase == Phase::Writing <==> self.done < self.writes.len()
    }

    /// What the job asks for next.
    pub open spec fn request(self) -> RequestView {
        match self.phase {
            Phase::Writing => RequestView::Write {
                text: self.text,
                key: self.writes[self.done].0,
                value: self.writes[self.done].1,
            },
            Phase::Storing => RequestView::Store { text: self.text },
            Phase::Parsing => RequestView::Parse { text: self.text },
        }
    }

    /// Why `reply` makes the job fail, if it does.
    pub open spec fn failure(self, reply: ReplyView) -> Option<CommitError> {
        match (self.phase, reply) {
            (Phase::Writing, ReplyView::Written(Some(_))) => None,
            (Phase::Writing, ReplyView::Written(None)) => Some(CommitError::WriteError),
            (Phase::Storing, ReplyView::Stored(true)) => None,
            (Phase::Storing, ReplyView::Stored(false)) => Some(CommitError::IoError),
            (Phase::Parsing, ReplyView::Parsed(Some(_))) => None,
            (Phase::Parsing, ReplyView::Parsed(None)) => Some(CommitError::ParseError),
            _ => Some(CommitError::OutOfTurn),
        }
    }

    /// The step after `reply`, the answer to the job's request.
    ///
    /// A write that succeeded gives the text for the next write, and after
    /// the last write the text to store. A stored text is parsed. A parsed
    /// text ends the commit with the state that the parse gives. A failure
    /// of any of the three, or a reply that answers another request than the
    /// job's, ends it with the state from before.
    pub open spec fn advance(self, reply: ReplyView) -> StepView {
        match (self.phase, reply) {
            (Phase::Writing, ReplyView::Written(Some(text))) => StepView::Pending(
                JobView {
                    before: self.before,
                    writes: self.writes,
                    done: self.done + 1,
                    text,
                    phase: if self.done + 1 < self.writes.len() {
                        Phase::Writing
                    } else {
                        Phase::Storing
                    },
                },
            ),
            (Phase::Storing, ReplyView::Stored(true)) => StepView::Pending(
                JobView {
                    before: self.before,
                    writes: self.writes,
                    done: self.done,
                    text: self.text,
                    phase: Phase::Parsing,
                },
            ),
            (Phase::Parsing, ReplyView::Parsed(Some(pairs))) => StepView::Done(
                Ok(StateView::baseline(self.text, pairs)),
            ),
            _ => StepView::Done(Err(self.before)),
        }
    }
}

/// The first step of a commit of `state`: with nothing dirty the commit is
/// done at once and the state stays; otherwise a job starts that writes the
/// dirty rows into the document's text.
pub open spec fn begin(state: StateView) -> StepView {
    if state.writes().len() == 0 {
        StepView::Done(Ok(state))
    } else {
        StepView::Pending(
            JobView {
                before: state,
                writes: state.writes(),
                done: 0,
                text: state.document,
                phase: Phase::Writing,
            },
        )
    }
}

/// A commit under way. It owns the state, so nothing else can change the
/// state before the commit has ended.
#[derive(Debug)]
pub struct CommitJob {
    before: ConfigState,
    writes: Vec<(String, String)>,
    done: usize,
    text: String,
    phase: Phase,
}

impl View for CommitJob {
    type V = JobView;

    closed spec fn view(&self) -> JobView {
        JobView {
            before: self.before@,
            writes: rows_view(self.writes@),
            done: self.done as int,
            text: self.text@,
            phase: self.phase,
        }
    }
}

/// A step of a commit: it has ended, or it waits for outside work.
#[derive(Debug)]
pub enum Step {
    /// The commit has ended: `Ok` with the new state, `Err` with the state
    /// from before.
    Done(Result<ConfigState, ConfigState>),
    /// The commit waits for the answer to the job's request.
    Pending(CommitJob),
}

impl View for Step {
    type V = StepView;

    open spec fn view(&self) -> StepView {
        match self {
            Step::Done(Ok(s)) => StepView::Done(Ok(s@)),
            Step::Done(Err(s)) => StepView::Done(Err(s@)),
            Step::Pending(job) => StepView::Pending(job@),
        }
    }
}

/// Starts a commit of `state`.
pub fn begin_commit(state: ConfigState) -> (step: Step)
    ensures
        step@ == begin(state@),
        step matches Step::Pending(job) ==> job@.wf(),
{
    proof {
        use_type_invariant(&state);
    }
    let writes = state.dirty_writes();
    if writes.len() == 0 {
        Step::Done(Ok(state))
    } else {
        let text = state.document().to_owned();
        Step::Pending(CommitJob { before: state, writes, done: 0, text, phase: Phase::Writing })
    }
}

impl CommitJob {
    /// Every job is well formed.
    #[verifier::type_invariant]
    pub open spec fn well_formed(&self) -> bool {
        self@.wf()
    }

    /// What to do next.
    pub fn request(&self) -> (r: Request)
        ensures
            r@ == self@.request(),
    {
        proof {
            use_type_invariant(self);
        }
        match self.phase {
            Phase::Writing => Request::Write {
                text: self.text.clone(),
                key: self.writes[self.done].0.clone(),
                value: self.writes[self.done].1.clone(),
            },
            Phase::Storing => Request::Store { text: self.text.clone() },
            Phase::Parsing => Request::Parse { text: self.text.clone() },
        }
    }

    /// Takes the answer to the job's request and gives the next step.
    pub fn advance(self, reply: Reply) -> (step: Step)
        ensures
            step@ == self@.advance(reply@),
            step matches Step::Pending(job) ==> job@.wf(),
    {
        proof {
            use_type_invariant(&self);
        }
        let ghost job = self@;
        let CommitJob { before, writes, done, text, phase } = self;
        match (phase, reply) {
            (Phase::Writing, Reply::Written(Some(new_text))) => {
                assert(job.writes.len() == writes.len());
                let next = if done + 1 < writes.len() {
                    Phase::Writing
                } else {
                    Phase::Storing
                };
                Step::Pending(
                    CommitJob { before, writes, done: done + 1, text: new_text, phase: next },
                )
            },
            (Phase::Storing, Reply::Stored(true)) => Step::Pending(
                CommitJob { before, writes, done, text, phase: Phase::Parsing },
            ),
            (Phase::Parsing, Reply::Parsed(Some(pairs))) => Step::Done(
                Ok(ConfigState::from_parsed(text, pairs)),
            ),
            _ => Step::Done(Err(before)),
        }
    }

    /// Why `reply` would make the job fail, if it would: `advance` rolls
    /// back on exactly the replies for which this gives an error.
    pub fn failure(&self, reply: &Reply) -> (e: Option<CommitError>)
        ensures
            e == self@.failure(reply@),
            e is Some <==> self@.advance(reply@) == StepView::Done(Err(self@.before)),
    {
        match (self.phase, reply) {
            (Phase::Writing, Reply::Written(Some(_))) => None,
            (Phase::Writing, Reply::Written(None)) => Some(CommitError::WriteError),
            (Phase::Storing, Reply::Stored(true)) => None,
            (Phase::Storing, Reply::Stored(false)) => Some(CommitError::IoError),
            (Phase::Parsing, Reply::Parsed(Some(_))) => None,
            (Phase::Parsing, Reply::Parsed(None)) => Some(CommitError::ParseError),
            _ => Some(CommitError::OutOfTurn),
        }
    }

    /// Gives the commit up and hands back the state from before.
    pub fn abort(self) -> (state: ConfigState)
        ensures
            state@ == self@.before,
    {
        self.before
    }
}

/// A writer as a function: the text after `value` was written for `key`
/// into a text, or `None` where it fails.
pub type Writer = spec_fn(Seq<char>, Seq<char>, Seq<char>) -> Option<Seq<char>>;

/// A store as a function: whether a text gets stored.
pub type Store = spec_fn(Seq<char>) -> bool;

/// A parser as a function: the keys and values of a text, or `None` where it
/// fails.
pub type Parser = spec_fn(Seq<char>) -> Option<Rows<Seq<char>>>;

/// The reply to a request from an outside that writes, stores and parses as
/// the three functions say.
pub open spec fn answer(request: RequestView, writer: Writer, store: Store, parser: Parser) -> ReplyView {
    match request {
        RequestView::Write { text, key, value } => ReplyView::Written(writer(text, key, value)),
        RequestView::Store { text } => ReplyView::Stored(store(text)),
        RequestView::Parse { text } => ReplyView::Parsed(parser(text)),
    }
}

/// A bound on the requests that a step can still lead to.
pub open spec fn steps_left(step: StepView) -> nat {
    match step {
        StepView::Done(_) => 0,
        StepView::Pending(job) => match job.phase {
            Phase::Writing => if job.done < job.writes.len() {
                (job.writes.len() - job.done + 2) as nat
            } else {
                3
            },
            Phase::Storing => 2,
            Phase::Parsing => 1,
        },
    }
}

/// Where a step ends when every request is answered by the three functions.
pub open spec fn run(step: StepView, writer: Writer, store: Store, parser: Parser) -> Result<
    StateView,
    StateView,
>
    decreases steps_left(step),
{
    match step {
        StepView::Done(result) => result,
        StepView::Pending(job) => run(
            job.advance(answer(job.request(), writer, store, parser)),
            writer,
            store,
            parser,
        ),
    }
}

/// The text after the rows from position `from` on were written into `text`
/// one after the other, each write working on the text that the one before
/// it gave; `None` where one of the writes fails.
pub open spec fn written(writer: Writer, text: Seq<char>, writes: Rows<Seq<char>>, from: int) -> Option<
    Seq<char>,
>
    decreases writes.len() - from,
{
    if from < 0 || from >= writes.len() {
        Some(text)
    } else {
        match writer(text, writes[from].0, writes[from].1) {
            Some(next) => written(writer, next, writes, from + 1),
            None => None,
        }
    }
}

/// How a commit ends once the writes are through: the text is stored and
/// parsed, and the parse gives the new state. Where a write, the store or
/// the parse failed, the state from before stays.
pub open spec fn concluded(before: StateView, text: Option<Seq<char>>, store: Store, parser: Parser) -> Result<
    StateView,
    StateView,
> {
    match text {
        None => Err(before),
        Some(text) => if !store(text) {
            Err(before)
        } else {
            match parser(text) {
                None => Err(before),
                Some(pairs) => Ok(StateView::baseline(text, pairs)),
            }
        },
    }
}

/// What a commit of `state` comes to.
///
/// With nothing dirty nothing is written or stored and the state stays. The
/// dirty rows are otherwise written in key order, each into the text that
/// the write before it gave. If all succeed, the final text is stored and
/// then parsed, and the new state holds that text, the parsed values as
/// committed, and entries that mirror them. If anything fails, the commit
/// gives back the state from before, untouched.
pub open spec fn commit(state: StateView, writer: Writer, store: Store, parser: Parser) -> Result<
    StateView,
    StateView,
> {
    if state.writes().len() == 0 {
        Ok(state)
    } else {
        concluded(state, written(writer, state.document, state.writes(), 0), store, parser)
    }
}

/// A job that is writing ends as the remaining writes, the store and the
/// parse make it end.
pub proof fn lemma_run_writing(job: JobView, writer: Writer, store: Store, parser: Parser)
    requires
        job.phase == Phase::Writing,
        0 <= job.done < job.writes.len(),
    ensures
        run(StepView::Pending(job), writer, store, parser) == concluded(
            job.before,
            written(writer, job.text, job.writes, job.done),
            store,
            parser,
        ),
    decreases job.writes.len() - job.done,
{
    let reply = answer(job.request(), writer, store, parser);
    let next = job.advance(reply);
    assert(run(StepView::Pending(job), writer, store, parser) == run(next, writer, store, parser));
    match writer(job.text, job.writes[job.done].0, job.writes[job.done].1) {
        None => {
            assert(next == StepView::Done(Err::<StateView, StateView>(job.before)));
        },
        Some(text) => {
            let after = next->Pending_0;
            if job.done + 1 < job.writes.len() {
                lemma_run_writing(after, writer, store, parser);
            } else {
                assert(written(writer, text, job.writes, job.done + 1) == Some(text));
                let stored = after.advance(answer(after.request(), writer, store, parser));
                assert(run(next, writer, store, parser) == run(stored, writer, store, parser));
                if store(text) {
                    let parsing = stored->Pending_0;
                    let ended = parsing.advance(answer(parsing.request(), writer, store, parser));
                    assert(run(stored, writer, store, parser) == run(
                        ended,
                        writer,
                        store,
                        parser,
                    ));
                }
            }
        },
    }
}

/// Driving the job of a commit to its end, with every request answered by
/// the three functions, comes to what `commit` says.
pub proof fn lemma_run_is_commit(state: StateView, writer: Writer, store: Store, parser: Parser)
    ensures
        run(begin(state), writer, store, parser) == commit(state, writer, store, parser),
{
    if state.writes().len() > 0 {
        lemma_run_writing(begin(state)->Pending_0, writer, store, parser);
    }
}

/// After a discard nothing is dirty, so a commit has nothing to write.
pub proof fn lemma_discarded_is_clean(state: StateView)
    requires
        state.wf(),
    ensures
        state.discarded().writes() == Seq::<(Seq<char>, Seq<char>)>::empty(),
        begin(state.discarded()) == StepView::Done(Ok(state.discarded())),
{
    lemma_mirror_is_clean(state.document, state.committed);
}

/// A state whose entries mirror sorted committed values has nothing dirty.
pub proof fn lemma_mirror_is_clean(document: Seq<char>, committed: Rows<Seq<char>>)
    requires
        sorted(committed),
    ensures
        (StateView { document, entries: mirror(committed), committed }).writes() == Seq::<
            (Seq<char>, Seq<char>),
        >::empty(),
{
    let state = StateView { document, entries: mirror(committed), committed };
    assert forall|i: int| 0 <= i < state.entries.len() implies !state.dirty_at(i) by {
        lemma_get_at(committed, i);
    }
    lemma_no_dirty_no_writes(state, state.entries.len() as int);
}

/// Where none of the first `n` entries is dirty, there is nothing to write
/// for them.
pub proof fn lemma_no_dirty_no_writes(state: StateView, n: int)
    requires
        0 <= n <= state.entries.len(),
        forall|i: int| 0 <= i < n ==> !state.dirty_at(i),
    ensures
        state.writes_upto(n) == Seq::<(Seq<char>, Seq<char>)>::empty(),
    decreases n,
{
    if n > 0 {
        lemma_no_dirty_no_writes(state, n - 1);
    }
}

/// The state that a commit ends with has nothing dirty.
pub proof fn lemma_baseline_is_clean(document: Seq<char>, pairs: Rows<Seq<char>>)
    ensures
        StateView::baseline(document, pairs).wf(),
        StateView::baseline(document, pairs).aligned(),
        StateView::baseline(document, pairs).writes() == Seq::<(Seq<char>, Seq<char>)>::empty(),
{
    lemma_canonical(pairs);
    lemma_mirror(canonical(pairs));
    lemma_mirror_is_clean(document, canonical(pairs));
}

/// A commit is idempotent: after a commit that succeeded, a second commit
/// with no edit in between finds nothing dirty. It asks for no write, no
/// store and no parse, and gives the state back.
pub proof fn lemma_commit_twice(state: StateView, writer: Writer, store: Store, parser: Parser)
    requires
        commit(state, writer, store, parser) is Ok,
    ensures
        ({
            let after = commit(state, writer, store, parser)->Ok_0;
            &&& after.writes().len() == 0
            &&& begin(after) == StepView::Done(Ok(after))
            &&& commit(after, writer, store, parser) == Ok::<StateView, StateView>(after)
        }),
{
    if state.writes().len() > 0 {
        let text = written(writer, state.document, state.writes(), 0)->0;
        lemma_baseline_is_clean(text, parser(text)->0);
    }
}

/// A commit that fails leaves the state as it was: nothing of it is lost or
/// half done.
pub proof fn lemma_commit_all_or_nothing(state: StateView, writer: Writer, store: Store, parser: Parser)
    ensures
        commit(state, writer, store, parser) matches Err(rolled_back) ==> rolled_back == state,
        commit(state, writer, store, parser) is Err ==> state.writes().len() > 0,
{
}

/// The row that the entry at position `i` gives to write when it is dirty:
/// its key with its content.
pub open spec fn row_at(state: StateView, i: int) -> (Seq<char>, Seq<char>) {
    (state.entries[i].0, state.entries[i].1.content)
}

/// `row` is the row of a dirty entry among the first `n`.
pub open spec fn row_of_dirty(state: StateView, n: int, row: (Seq<char>, Seq<char>)) -> bool {
    exists|i: int| 0 <= i < n && #[trigger] state.dirty_at(i) && row_at(state, i) == row
}

/// What the first `n` entries give to write: a row for each dirty entry
/// among them, and no other row.
pub proof fn lemma_writes_upto(state: StateView, n: int)
    requires
        0 <= n <= state.entries.len(),
    ensures
        forall|j: int|
            0 <= j < state.writes_upto(n).len() ==> row_of_dirty(
                state,
                n,
                #[trigger] state.writes_upto(n)[j],
            ),
        forall|i: int|
            0 <= i < n && #[trigger] state.dirty_at(i) ==> state.writes_upto(n).contains(
                row_at(state, i),
            ),
    decreases n,
{
    if n > 0 {
        lemma_writes_upto(state, n - 1);
        let prev = state.writes_upto(n - 1);
        let cur = state.writes_upto(n);
        assert forall|j: int| 0 <= j < cur.len() implies row_of_dirty(state, n, #[trigger] cur[j]) by {
            if j < prev.len() {
                assert(cur[j] == prev[j]);
                assert(row_of_dirty(state, n - 1, prev[j]));
                let i = choose|i: int|
                    0 <= i < n - 1 && #[trigger] state.dirty_at(i) && row_at(state, i) == prev[j];
                assert(0 <= i < n && state.dirty_at(i) && row_at(state, i) == cur[j]);
            } else {
                assert(state.dirty_at(n - 1) && row_at(state, n - 1) == cur[j]);
            }
        }
        assert forall|i: int| 0 <= i < n && #[trigger] state.dirty_at(i) implies cur.contains(
            row_at(state, i),
        ) by {
            if i < n - 1 {
                assert(prev.contains(row_at(state, i)));
                let j = choose|j: int| 0 <= j < prev.len() && prev[j] == row_at(state, i);
                assert(cur[j] == row_at(state, i));
            } else {
                assert(cur[cur.len() - 1] == row_at(state, i));
            }
        }
    }
}

/// The dirty keys are what a commit writes back, and nothing else: a key has
/// a row among the writes exactly when it has an entry whose content differs
/// from what is committed for it, a key with no committed value differing
/// from anything. The row holds the entry's content.
pub proof fn lemma_writes_are_the_dirty_keys(state: StateView, key: Seq<char>)
    requires
        state.wf(),
    ensures
        has_key(state.writes(), key) <==> state.dirty(key),
        state.dirty(key) ==> state.writes().contains((key, get_content(state, key))),
{
    let n = state.entries.len() as int;
    let w = state.writes();
    lemma_writes_upto(state, n);
    lemma_get_has_key(state.entries, key);
    if has_key(w, key) {
        let j = choose|j: int| 0 <= j < w.len() && (#[trigger] w[j]).0 == key;
        assert(row_of_dirty(state, n, w[j]));
        let i = choose|i: int|
            0 <= i < n && #[trigger] state.dirty_at(i) && row_at(state, i) == w[j];
        lemma_get_at(state.entries, i);
        assert(state.dirty(key));
    }
    if state.dirty(key) {
        let i = choose|i: int| 0 <= i < n && (#[trigger] state.entries[i]).0 == key;
        lemma_get_at(state.entries, i);
        assert(state.dirty_at(i));
        assert(w.contains(row_at(state, i)));
        let j = choose|j: int| 0 <= j < w.len() && w[j] == row_at(state, i);
        assert(w[j].0 == key);
    }
}

/// The rows to write come in key order, each key once.
pub proof fn lemma_writes_in_key_order(state: StateView, n: int)
    requires
        state.wf(),
        0 <= n <= state.entries.len(),
    ensures
        sorted(state.writes_upto(n)),
    decreases n,
{
    if n > 0 {
        lemma_writes_in_key_order(state, n - 1);
        lemma_writes_upto(state, n - 1);
        let prev = state.writes_upto(n - 1);
        if state.dirty_at(n - 1) {
            assert forall|j: int| 0 <= j < prev.len() implies key_lt(
                #[trigger] prev[j].0,
                row_at(state, n - 1).0,
            ) by {
                assert(row_of_dirty(state, n - 1, prev[j]));
                let i = choose|i: int|
                    0 <= i < n - 1 && #[trigger] state.dirty_at(i) && row_at(state, i) == prev[j];
                assert(key_lt(state.entries[i].0, state.entries[n - 1].0));
            }
            lemma_sorted_push(prev, row_at(state, n - 1));
        }
    }
}

/// The content of the entry of `key`; the empty text where it has none.
pub open spec fn get_content(state: StateView, key: Seq<char>) -> Seq<char> {
    match get(state.entries, key) {
        Some(buffer) => buffer.content,
        None => Seq::empty(),
    }
}

} // verus!
