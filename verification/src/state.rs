//! The configuration state: the document's text, the editable entries and
//! the values that were last committed.
//!
//! Entries and committed values are both kept as rows in key order, so a
//! state has one representation and two states are equal by value exactly
//! when their rows are. The state is a value: no operation changes one in
//! place, each takes a state and gives a new one.

use vstd::prelude::*;

use crate::buffer::{BufferView, EditBuffer};
use crate::table::{
    canonical, get, has_key, lemma_get_at, lemma_get_has_key, lemma_sorted_distinct_keys, locate,
    rows_view, sort_rows, sorted, Rows,
};
use crate::text::key_lt;

verus! {

/// A configuration state as plain values.
pub struct StateView {
    /// The text of the document.
    pub document: Seq<char>,
    /// The editable buffer of each key, in key order.
    pub entries: Rows<BufferView>,
    /// The value of each key as it was last committed, in key order.
    pub committed: Rows<Seq<char>>,
}

/// A buffer that holds `content`, with the cursor at the start.
pub open spec fn fresh_buffer(content: Seq<char>) -> BufferView {
    BufferView { content, cursor: (0usize, 0usize) }
}

/// The entries that mirror committed values: for every key a fresh buffer
/// with the committed value.
pub open spec fn mirror(committed: Rows<Seq<char>>) -> Rows<BufferView> {
    Seq::new(committed.len(), |i: int| (committed[i].0, fresh_buffer(committed[i].1)))
}

/// The entries with every cursor put back to the start.
pub open spec fn without_cursors(entries: Rows<BufferView>) -> Rows<BufferView> {
    Seq::new(entries.len(), |i: int| (entries[i].0, fresh_buffer(entries[i].1.content)))
}

impl StateView {
    /// Both lists of rows are in key order.
    pub open spec fn wf(self) -> bool {
        &&& sorted(self.entries)
        &&& sorted(self.committed)
    }

    /// The state with no text, no entries and nothing committed.
    pub open spec fn empty() -> StateView {
        StateView { document: Seq::empty(), entries: Seq::empty(), committed: Seq::empty() }
    }

    /// The state right after a parse of `document` gave `pairs`: the pairs
    /// are what is committed, and the entries mirror them.
    pub open spec fn baseline(document: Seq<char>, pairs: Rows<Seq<char>>) -> StateView {
        StateView {
            document,
            entries: mirror(canonical(pairs)),
            committed: canonical(pairs),
        }
    }

    /// What counts for equality by value: the document, each key with its
    /// content, and the committed values. Cursors do not count.
    pub open spec fn value(self) -> StateView {
        StateView {
            document: self.document,
            entries: without_cursors(self.entries),
            committed: self.committed,
        }
    }

    /// Equality by value.
    pub open spec fn same_value(self, other: StateView) -> bool {
        self.value() == other.value()
    }

    /// The entry at position `i` differs from what is committed for its key;
    /// a key with no committed value differs.
    pub open spec fn dirty_at(self, i: int) -> bool {
        get(self.committed, self.entries[i].0) != Some(self.entries[i].1.content)
    }

    /// The key has an entry whose content differs from what is committed for
    /// it.
    pub open spec fn dirty(self, key: Seq<char>) -> bool {
        match get(self.entries, key) {
            Some(b) => get(self.committed, key) != Some(b.content),
            None => false,
        }
    }

    /// The rows to write back among the first `n` entries: each dirty key
    /// with its content, in key order.
    pub open spec fn writes_upto(self, n: int) -> Rows<Seq<char>>
        decreases n,
    {
        if n <= 0 {
            Seq::empty()
        } else if self.dirty_at(n - 1) {
            self.writes_upto(n - 1).push((self.entries[n - 1].0, self.entries[n - 1].1.content))
        } else {
            self.writes_upto(n - 1)
        }
    }

    /// The rows that a commit writes back.
    pub open spec fn writes(self) -> Rows<Seq<char>> {
        self.writes_upto(self.entries.len() as int)
    }

    /// The state with the buffer at position `i` replaced.
    pub open spec fn with_buffer(self, i: int, buffer: BufferView) -> StateView {
        StateView {
            document: self.document,
            entries: self.entries.update(i, (self.entries[i].0, buffer)),
            committed: self.committed,
        }
    }

    /// The state after an edit of `key`: its buffer holds `content`, its
    /// cursor stays. A key without an entry leaves the state as it is.
    pub open spec fn edited(self, key: Seq<char>, content: Seq<char>) -> StateView {
        StateView {
            document: self.document,
            entries: Seq::new(
                self.entries.len(),
                |i: int|
                    if self.entries[i].0 == key {
                        (key, BufferView { content, cursor: self.entries[i].1.cursor })
                    } else {
                        self.entries[i]
                    },
            ),
            committed: self.committed,
        }
    }

    /// The state after the cursor of `key` moved to `range`. A key without
    /// an entry leaves the state as it is.
    pub open spec fn moved(self, key: Seq<char>, range: (usize, usize)) -> StateView {
        StateView {
            document: self.document,
            entries: Seq::new(
                self.entries.len(),
                |i: int|
                    if self.entries[i].0 == key {
                        (key, BufferView { content: self.entries[i].1.content, cursor: range })
                    } else {
                        self.entries[i]
                    },
            ),
            committed: self.committed,
        }
    }

    /// Every key that has an entry has a committed value, and the other way
    /// round.
    pub open spec fn aligned(self) -> bool {
        forall|k: Seq<char>| get(self.entries, k) is Some <==> get(self.committed, k) is Some
    }
}

/// The whole state of the application.
#[derive(Debug)]
pub struct ConfigState {
    document: String,
    entries: Vec<(String, EditBuffer)>,
    committed: Vec<(String, String)>,
}

impl View for ConfigState {
    type V = StateView;

    closed spec fn view(&self) -> StateView {
        StateView {
            document: self.document@,
            entries: rows_view(self.entries@),
            committed: rows_view(self.committed@),
        }
    }
}

/// The mirror of sorted rows is sorted, and has a buffer for exactly the
/// keys that have a value.
pub proof fn lemma_mirror(committed: Rows<Seq<char>>)
    requires
        sorted(committed),
    ensures
        sorted(mirror(committed)),
        forall|k: Seq<char>|
            get(mirror(committed), k) == match get(committed, k) {
                Some(v) => Some(fresh_buffer(v)),
                None => None,
            },
{
    let m = mirror(committed);
    assert forall|i: int, j: int| 0 <= i < j < m.len() implies key_lt(
        #[trigger] m[i].0,
        #[trigger] m[j].0,
    ) by {
        assert(key_lt(committed[i].0, committed[j].0));
    }
    assert forall|k: Seq<char>|
        get(m, k) == match get(committed, k) {
            Some(v) => Some(fresh_buffer(v)),
            None => None,
        } by {
        lemma_get_has_key(m, k);
        lemma_get_has_key(committed, k);
        if has_key(committed, k) {
            let i = choose|i: int| 0 <= i < committed.len() && (#[trigger] committed[i]).0 == k;
            assert(m[i].0 == k);
            lemma_get_at(m, i);
            lemma_get_at(committed, i);
        } else if has_key(m, k) {
            let i = choose|i: int| 0 <= i < m.len() && (#[trigger] m[i]).0 == k;
            assert(committed[i].0 == k);
        }
    }
}

impl ConfigState {
    /// Every state is in key order.
    #[verifier::type_invariant]
    pub open spec fn in_key_order(&self) -> bool {
        self@.wf()
    }

    /// A state with the given document, entries and committed values. Rows
    /// may come in any order; of two rows with one key the later one counts.
    pub fn new(
        document: String,
        entries: Vec<(String, EditBuffer)>,
        committed: Vec<(String, String)>,
    ) -> (s: ConfigState)
        ensures
            s@ == (StateView {
                document: document@,
                entries: canonical(rows_view(entries@)),
                committed: canonical(rows_view(committed@)),
            }),
            s@.wf(),
    {
        let entries = sort_rows(entries);
        let committed = sort_rows(committed);
        ConfigState { document, entries, committed }
    }

    /// The state at startup and after a commit: `pairs` is what a parse of
    /// `document` gave, in any order. They become the committed values, and
    /// the entries mirror them.
    pub fn from_parsed(document: String, pairs: Vec<(String, String)>) -> (s: ConfigState)
        ensures
            s@ == StateView::baseline(document@, rows_view(pairs@)),
            s@.wf(),
            s@.aligned(),
    {
        let committed = sort_rows(pairs);
        let entries = mirror_rows(&committed);
        proof {
            lemma_mirror(rows_view(committed@));
        }
        ConfigState { document, entries, committed }
    }

    /// The text of the document.
    pub fn document(&self) -> (s: &str)
        ensures
            s@ == self@.document,
    {
        self.document.as_str()
    }

    /// The number of entries.
    pub fn len(&self) -> (n: usize)
        ensures
            n == self@.entries.len(),
    {
        self.entries.len()
    }

    /// The key at position `i` of the entries, if there is one.
    pub fn key_at(&self, i: usize) -> (k: Option<&str>)
        ensures
            match k {
                Some(k) => i < self@.entries.len() && k@ == self@.entries[i as int].0,
                None => i >= self@.entries.len(),
            },
    {
        if i < self.entries.len() {
            Some(self.entries[i].0.as_str())
        } else {
            None
        }
    }

    /// The buffer at position `i` of the entries, if there is one.
    pub fn buffer_at(&self, i: usize) -> (b: Option<&EditBuffer>)
        ensures
            match b {
                Some(b) => i < self@.entries.len() && b@ == self@.entries[i as int].1,
                None => i >= self@.entries.len(),
            },
    {
        if i < self.entries.len() {
            Some(&self.entries[i].1)
        } else {
            None
        }
    }

    /// The position of `key` among the entries, if it has one.
    pub fn position_of(&self, key: &str) -> (p: Option<usize>)
        ensures
            match p {
                Some(i) => i < self@.entries.len() && self@.entries[i as int].0 == key@,
                None => get(self@.entries, key@) is None,
            },
    {
        proof {
            use_type_invariant(self);
            lemma_get_has_key(self@.entries, key@);
        }
        let (i, found) = locate(&self.entries, key);
        if found {
            Some(i)
        } else {
            None
        }
    }

    /// The content of the buffer of `key`, if it has an entry.
    pub fn content_of(&self, key: &str) -> (c: Option<String>)
        ensures
            match c {
                Some(c) => get(self@.entries, key@) matches Some(b) && b.content == c@,
                None => get(self@.entries, key@) is None,
            },
    {
        proof {
            use_type_invariant(self);
        }
        match self.position_of(key) {
            Some(i) => {
                proof {
                    lemma_get_at(self@.entries, i as int);
                }
                Some(self.entries[i].1.get_content())
            },
            None => None,
        }
    }

    /// The cursor of the buffer of `key`, if it has an entry.
    pub fn cursor_of(&self, key: &str) -> (c: Option<(usize, usize)>)
        ensures
            match c {
                Some(c) => get(self@.entries, key@) matches Some(b) && b.cursor == c,
                None => get(self@.entries, key@) is None,
            },
    {
        proof {
            use_type_invariant(self);
        }
        match self.position_of(key) {
            Some(i) => {
                proof {
                    lemma_get_at(self@.entries, i as int);
                }
                Some(self.entries[i].1.get_cursor())
            },
            None => None,
        }
    }

    /// The value that was last committed for `key`, if there is one.
    pub fn committed_value(&self, key: &str) -> (v: Option<String>)
        ensures
            match v {
                Some(v) => get(self@.committed, key@) == Some(v@),
                None => get(self@.committed, key@) is None,
            },
    {
        proof {
            use_type_invariant(self);
            lemma_get_has_key(self@.committed, key@);
        }
        let (i, found) = locate(&self.committed, key);
        if found {
            proof {
                lemma_get_at(self@.committed, i as int);
            }
            Some(self.committed[i].1.clone())
        } else {
            None
        }
    }

    /// The keys of the entries, in key order.
    pub fn keys(&self) -> (keys: Vec<String>)
        ensures
            keys@.len() == self@.entries.len(),
            forall|i: int| 0 <= i < keys@.len() ==> (#[trigger] keys@[i])@ == self@.entries[i].0,
    {
        let mut keys: Vec<String> = Vec::new();
        let mut i: usize = 0;
        while i < self.entries.len()
            invariant
                i <= self.entries.len(),
                keys@.len() == i,
                forall|j: int| 0 <= j < i ==> (#[trigger] keys@[j])@ == self@.entries[j].0,
            decreases self.entries.len() - i,
        {
            keys.push(self.entries[i].0.clone());
            i = i + 1;
        }
        keys
    }

    /// Whether the entry at position `i` differs from what is committed for
    /// its key. A position past the entries is not dirty.
    pub fn is_dirty_at(&self, i: usize) -> (d: bool)
        ensures
            d == (i < self@.entries.len() && self@.dirty_at(i as int)),
    {
        if i >= self.entries.len() {
            return false;
        }
        proof {
            use_type_invariant(self);
            lemma_get_has_key(self@.committed, self@.entries[i as int].0);
        }
        let (j, found) = locate(&self.committed, self.entries[i].0.as_str());
        if found {
            proof {
                lemma_get_at(self@.committed, j as int);
            }
            !self.entries[i].1.holds(&self.committed[j].1)
        } else {
            true
        }
    }

    /// Whether `key` has an entry whose content differs from what is
    /// committed for it.
    pub fn is_dirty(&self, key: &str) -> (d: bool)
        ensures
            d == self@.dirty(key@),
    {
        proof {
            use_type_invariant(self);
        }
        match self.position_of(key) {
            Some(i) => {
                proof {
                    lemma_get_at(self@.entries, i as int);
                }
                self.is_dirty_at(i)
            },
            None => false,
        }
    }

    /// The rows that a commit writes back: each dirty key with its content,
    /// in key order.
    pub fn dirty_writes(&self) -> (writes: Vec<(String, String)>)
        ensures
            rows_view(writes@) == self@.writes(),
    {
        let mut writes: Vec<(String, String)> = Vec::new();
        let mut i: usize = 0;
        while i < self.entries.len()
            invariant
                i <= self.entries.len(),
                rows_view(writes@) == self@.writes_upto(i as int),
            decreases self.entries.len() - i,
        {
            let ghost before = rows_view(writes@);
            if self.is_dirty_at(i) {
                writes.push((self.entries[i].0.clone(), self.entries[i].1.get_content()));
                assert(rows_view(writes@) =~= before.push(
                    (self@.entries[i as int].0, self@.entries[i as int].1.content),
                ));
            }
            i = i + 1;
        }
        writes
    }

    /// The state with the buffer at position `i` replaced. A position past
    /// the entries leaves the state as it is.
    pub fn with_buffer_at(self, i: usize, buffer: EditBuffer) -> (s: ConfigState)
        ensures
            s@ == if i < self@.entries.len() {
                self@.with_buffer(i as int, buffer@)
            } else {
                self@
            },
            s@.wf(),
    {
        proof {
            use_type_invariant(&self);
        }
        if i >= self.entries.len() {
            return self;
        }
        let ghost old_entries = self@.entries;
        let ConfigState { document, mut entries, committed } = self;
        let key = entries[i].0.clone();
        entries.set(i, (key, buffer));
        proof {
            let new_entries = rows_view(entries@);
            assert(new_entries =~= old_entries.update(i as int, (old_entries[i as int].0, buffer@)));
            assert forall|a: int, b: int| 0 <= a < b < new_entries.len() implies key_lt(
                #[trigger] new_entries[a].0,
                #[trigger] new_entries[b].0,
            ) by {
                assert(key_lt(old_entries[a].0, old_entries[b].0));
            }
        }
        ConfigState { document, entries, committed }
    }

    /// An edit: the buffer of `key` gets `content` and keeps its cursor. A
    /// key without an entry leaves the state as it is. Nothing is written or
    /// committed by an edit.
    pub fn edit(self, key: &str, content: &str) -> (s: ConfigState)
        ensures
            s@ == self@.edited(key@, content@),
            s@.wf(),
    {
        proof {
            use_type_invariant(&self);
            lemma_get_has_key(self@.entries, key@);
        }
        let ghost before = self@;
        match self.position_of(key) {
            Some(i) => {
                let mut buffer = self.entries[i].1.clone();
                buffer.set_content(content);
                let s = self.with_buffer_at(i, buffer);
                proof {
                    assert forall|j: int| 0 <= j < before.entries.len() && j != i implies (
                    #[trigger] before.entries[j]).0 != key@ by {
                        lemma_sorted_distinct_keys(before.entries, i as int, j);
                    }
                    assert(s@.entries =~= before.edited(key@, content@).entries);
                }
                s
            },
            None => {
                proof {
                    assert(self@.entries =~= before.edited(key@, content@).entries);
                }
                self
            },
        }
    }

    /// The cursor of `key` moves to `range`; the content stays. A key
    /// without an entry leaves the state as it is.
    pub fn move_cursor(self, key: &str, range: (usize, usize)) -> (s: ConfigState)
        ensures
            s@ == self@.moved(key@, range),
            s@.wf(),
    {
        proof {
            use_type_invariant(&self);
            lemma_get_has_key(self@.entries, key@);
        }
        let ghost before = self@;
        match self.position_of(key) {
            Some(i) => {
                let mut buffer = self.entries[i].1.clone();
                buffer.set_cursor(range);
                let s = self.with_buffer_at(i, buffer);
                proof {
                    assert forall|j: int| 0 <= j < before.entries.len() && j != i implies (
                    #[trigger] before.entries[j]).0 != key@ by {
                        lemma_sorted_distinct_keys(before.entries, i as int, j);
                    }
                    assert(s@.entries =~= before.moved(key@, range).entries);
                }
                s
            },
            None => {
                proof {
                    assert(self@.entries =~= before.moved(key@, range).entries);
                }
                self
            },
        }
    }

    /// The state with its entries replaced by the mirror of what is
    /// committed.
    pub fn with_mirrored_entries(self) -> (s: ConfigState)
        ensures
            s@ == (StateView {
                document: self@.document,
                entries: mirror(self@.committed),
                committed: self@.committed,
            }),
            s@.wf(),
    {
        proof {
            use_type_invariant(&self);
            lemma_mirror(self@.committed);
        }
        let ConfigState { document, entries: _, committed } = self;
        let entries = mirror_rows(&committed);
        ConfigState { document, entries, committed }
    }

    /// Whether two states are equal by value: the same document, the same
    /// keys with the same contents, the same committed values. Cursors do
    /// not count.
    pub fn same_value(&self, other: &ConfigState) -> (r: bool)
        ensures
            r == self@.same_value(other@),
    {
        if self.document != other.document {
            return false;
        }
        if self.entries.len() != other.entries.len() {
            assert(self@.value().entries.len() != other@.value().entries.len());
            return false;
        }
        if self.committed.len() != other.committed.len() {
            assert(self@.value().committed.len() != other@.value().committed.len());
            return false;
        }
        let mut i: usize = 0;
        while i < self.entries.len()
            invariant
                i <= self.entries.len(),
                self.entries.len() == other.entries.len(),
                forall|j: int|
                    0 <= j < i ==> #[trigger] self@.value().entries[j] == other@.value().entries[j],
            decreases self.entries.len() - i,
        {
            if self.entries[i].0 != other.entries[i].0 || !self.entries[i].1.same_content(
                &other.entries[i].1,
            ) {
                assert(self@.value().entries[i as int] != other@.value().entries[i as int]);
                return false;
            }
            i = i + 1;
        }
        let mut j: usize = 0;
        while j < self.committed.len()
            invariant
                j <= self.committed.len(),
                self.committed.len() == other.committed.len(),
                forall|k: int| 0 <= k < j ==> #[trigger] self@.committed[k] == other@.committed[k],
            decreases self.committed.len() - j,
        {
            if self.committed[j].0 != other.committed[j].0 || self.committed[j].1
                != other.committed[j].1 {
                assert(self@.value().committed[j as int] != other@.value().committed[j as int]);
                return false;
            }
            j = j + 1;
        }
        assert(self@.value().entries =~= other@.value().entries);
        assert(self@.value().committed =~= other@.value().committed);
        true
    }
}

/// For every row a fresh buffer with the row's value.
pub fn mirror_rows(committed: &Vec<(String, String)>) -> (entries: Vec<(String, EditBuffer)>)
    ensures
        rows_view(entries@) == mirror(rows_view(committed@)),
{
    let mut entries: Vec<(String, EditBuffer)> = Vec::new();
    let mut i: usize = 0;
    while i < committed.len()
        invariant
            i <= committed.len(),
            entries.len() == i,
            forall|j: int|
                0 <= j < i ==> (#[trigger] entries@[j]).0@ == committed@[j].0@ && entries@[j].1@
                    == fresh_buffer(committed@[j].1@),
        decreases committed.len() - i,
    {
        entries.push((committed[i].0.clone(), EditBuffer::fresh(committed[i].1.clone())));
        i = i + 1;
    }
    assert(rows_view(entries@) =~= mirror(rows_view(committed@)));
    entries
}

impl Clone for ConfigState {
    fn clone(&self) -> (s: ConfigState)
        ensures
            s@ == self@,
    {
        proof {
            use_type_invariant(self);
        }
        let mut entries: Vec<(String, EditBuffer)> = Vec::new();
        let mut i: usize = 0;
        while i < self.entries.len()
            invariant
                i <= self.entries.len(),
                entries.len() == i,
                forall|j: int|
                    0 <= j < i ==> (#[trigger] entries@[j]).0@ == self.entries@[j].0@
                        && entries@[j].1@ == self.entries@[j].1@,
            decreases self.entries.len() - i,
        {
            entries.push((self.entries[i].0.clone(), self.entries[i].1.clone()));
            i = i + 1;
        }
        let mut committed: Vec<(String, String)> = Vec::new();
        let mut j: usize = 0;
        while j < self.committed.len()
            invariant
                j <= self.committed.len(),
                committed.len() == j,
                forall|k: int|
                    0 <= k < j ==> (#[trigger] committed@[k]).0@ == self.committed@[k].0@
                        && committed@[k].1@ == self.committed@[k].1@,
            decreases self.committed.len() - j,
        {
            committed.push((self.committed[j].0.clone(), self.committed[j].1.clone()));
            j = j + 1;
        }
        assert(rows_view(entries@) =~= rows_view(self.entries@));
        assert(rows_view(committed@) =~= rows_view(self.committed@));
        ConfigState { document: self.document.clone(), entries, committed }
    }
}

impl Default for ConfigState {
    fn default() -> (s: ConfigState)
        ensures
            s@ == StateView::empty(),
    {
        let s = ConfigState { document: String::new(), entries: Vec::new(), committed: Vec::new() };
        assert(s@.entries =~= Seq::empty());
        assert(s@.committed =~= Seq::empty());
        s
    }
}

impl PartialEq for ConfigState {
    fn eq(&self, other: &ConfigState) -> (r: bool) {
        self.same_value(other)
    }
}

impl vstd::std_specs::cmp::PartialEqSpecImpl for ConfigState {
    open spec fn obeys_eq_spec() -> bool {
        true
    }

    open spec fn eq_spec(&self, other: &ConfigState) -> bool {
        self@.same_value(other@)
    }
}

} // verus!
