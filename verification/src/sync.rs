//! The synchronizer's edits: the toggle of a boolean entry and the discard
//! of every edit. Neither touches the document or what is committed; the
//! third operation, the commit, is in [`crate::commit`].

use vstd::prelude::*;

use crate::buffer::BufferView;
use crate::state::{lemma_mirror, mirror, ConfigState, StateView};
use crate::table::lemma_same_keys;
use crate::text::{ascii_lower, eq_ignore_ascii_case, same_ignoring_ascii_case};

verus! {

/// The text `true`.
pub open spec fn text_true() -> Seq<char> {
    seq!['t', 'r', 'u', 'e']
}

/// The text `false`.
pub open spec fn text_false() -> Seq<char> {
    seq!['f', 'a', 'l', 's', 'e']
}

impl StateView {
    /// The state after a toggle of the entry at `position`: its content is
    /// flipped, its cursor stays. A position past the entries leaves the
    /// state as it is.
    pub open spec fn toggled(self, position: int) -> StateView {
        if 0 <= position < self.entries.len() {
            self.with_buffer(
                position,
                BufferView {
                    content: flipped(self.entries[position].1.content),
                    cursor: self.entries[position].1.cursor,
                },
            )
        } else {
            self
        }
    }

    /// The state after a discard: the entries mirror what is committed; the
    /// document and the committed values are untouched.
    pub open spec fn discarded(self) -> StateView {
        StateView {
            document: self.document,
            entries: mirror(self.committed),
            committed: self.committed,
        }
    }
}

/// What a content reads as: `Some(true)` for `true` in any case of letters,
/// `Some(false)` for `false` in any case, `None` for anything else.
pub open spec fn boolean_of(content: Seq<char>) -> Option<bool> {
    if eq_ignore_ascii_case(content, text_true()) {
        Some(true)
    } else if eq_ignore_ascii_case(content, text_false()) {
        Some(false)
    } else {
        None
    }
}

/// What a toggle makes of a content: what reads as `true` becomes `false`,
/// what reads as `false` becomes `true`, anything else stays.
pub open spec fn flipped(content: Seq<char>) -> Seq<char> {
    match boolean_of(content) {
        Some(true) => text_false(),
        Some(false) => text_true(),
        None => content,
    }
}

/// Whether `content` reads as a boolean, and as which. An entry that does is
/// one that a toggle changes.
pub fn as_boolean(content: &str) -> (b: Option<bool>)
    ensures
        b == boolean_of(content@),
{
    proof {
        reveal_strlit("true");
        reveal_strlit("false");
        assert("true"@ =~= text_true());
        assert("false"@ =~= text_false());
    }
    if same_ignoring_ascii_case(content, "true") {
        Some(true)
    } else if same_ignoring_ascii_case(content, "false") {
        Some(false)
    } else {
        None
    }
}

/// What a toggle makes of `content`.
pub fn flip(content: &str) -> (r: String)
    ensures
        r@ == flipped(content@),
{
    proof {
        reveal_strlit("true");
        reveal_strlit("false");
        assert("true"@ =~= text_true());
        assert("false"@ =~= text_false());
    }
    match as_boolean(content) {
        Some(true) => "false".to_owned(),
        Some(false) => "true".to_owned(),
        None => content.to_owned(),
    }
}

/// Toggles the entry at `position`. Never fails: an entry that is not a
/// boolean, or a position without an entry, gives the state back unchanged
/// by value.
pub fn toggle(state: ConfigState, position: usize) -> (r: Result<ConfigState, ConfigState>)
    ensures
        r matches Ok(s) && s@ == state@.toggled(position as int) && s@.wf(),
{
    proof {
        use_type_invariant(&state);
    }
    match state.buffer_at(position) {
        None => Ok(state),
        Some(current) => {
            let mut buffer = current.clone();
            let content = flip(current.content());
            buffer.set_content(content.as_str());
            Ok(state.with_buffer_at(position, buffer))
        },
    }
}

/// Discards every edit: the entries become fresh buffers with the committed
/// values, cursors at the start. Never fails.
pub fn discard(state: ConfigState) -> (r: Result<ConfigState, ConfigState>)
    ensures
        r matches Ok(s) && s@ == state@.discarded() && s@.wf(),
{
    Ok(state.with_mirrored_entries())
}

/// A content reads as a boolean: it is `true` or `false` in some case of
/// letters.
pub open spec fn reads_as_boolean(content: Seq<char>) -> bool {
    boolean_of(content) is Some
}

/// Flipping `true` gives `false` and flipping `false` gives `true`.
pub proof fn lemma_flipped_booleans()
    ensures
        flipped(text_true()) == text_false(),
        flipped(text_false()) == text_true(),
{
    assert(eq_ignore_ascii_case(text_true(), text_true()));
    assert(eq_ignore_ascii_case(text_false(), text_false()));
    assert(text_false().len() != text_true().len());
}

/// Flipping a content twice gives it back up to the case of its letters.
pub proof fn lemma_flipped_twice(content: Seq<char>)
    ensures
        eq_ignore_ascii_case(flipped(flipped(content)), content),
        !reads_as_boolean(content) ==> flipped(content) == content,
{
    lemma_flipped_booleans();
    assert(text_false().len() != text_true().len());
    if eq_ignore_ascii_case(content, text_true()) {
        assert forall|i: int| 0 <= i < text_true().len() implies ascii_lower(
            #[trigger] text_true()[i],
        ) == ascii_lower(content[i]) by {
            assert(ascii_lower(content[i]) == ascii_lower(
                text_true()[i],
            ));
        }
    } else if eq_ignore_ascii_case(content, text_false()) {
        assert forall|i: int| 0 <= i < text_false().len() implies ascii_lower(
            #[trigger] text_false()[i],
        ) == ascii_lower(content[i]) by {
            assert(ascii_lower(content[i]) == ascii_lower(
                text_false()[i],
            ));
        }
    } else {
        assert forall|i: int| 0 <= i < content.len() implies ascii_lower(
            #[trigger] content[i],
        ) == ascii_lower(content[i]) by {}
    }
}

/// Toggling an entry twice gives the state back, where the entry holds
/// `true` or `false` in lower case or does not read as a boolean at all.
/// (A boolean in another case, such as `True`, comes back in lower case.)
pub proof fn lemma_toggle_twice(state: StateView, position: int)
    requires
        0 <= position < state.entries.len() ==> {
            let content = state.entries[position].1.content;
            reads_as_boolean(content) ==> content == text_true() || content == text_false()
        },
    ensures
        state.toggled(position).toggled(position) == state,
{
    if 0 <= position < state.entries.len() {
        let content = state.entries[position].1.content;
        lemma_flipped_booleans();
        lemma_flipped_twice(content);
        assert(flipped(flipped(content)) == content);
        assert(state.toggled(position).toggled(position).entries =~= state.entries);
    }
}

/// Toggling an entry twice gives, for every state, a content that equals the
/// first one up to the case of its letters, and changes nothing else.
pub proof fn lemma_toggle_twice_ignoring_case(state: StateView, position: int)
    requires
        0 <= position < state.entries.len(),
    ensures
        state.toggled(position).toggled(position) == state.with_buffer(
            position,
            BufferView {
                content: flipped(flipped(state.entries[position].1.content)),
                cursor: state.entries[position].1.cursor,
            },
        ),
        eq_ignore_ascii_case(
            flipped(flipped(state.entries[position].1.content)),
            state.entries[position].1.content,
        ),
{
    lemma_flipped_twice(state.entries[position].1.content);
    assert(state.toggled(position).toggled(position).entries =~= state.with_buffer(
        position,
        BufferView {
            content: flipped(flipped(state.entries[position].1.content)),
            cursor: state.entries[position].1.cursor,
        },
    ).entries);
}

/// An edit of the entries: of a content, of a cursor, or a toggle.
pub enum Edit {
    /// The buffer of `key` gets `content`.
    Content { key: Seq<char>, content: Seq<char> },
    /// The cursor of `key` moves to `range`.
    Cursor { key: Seq<char>, range: (usize, usize) },
    /// The entry at `position` is toggled.
    Toggle { position: int },
}

/// The state after one edit.
pub open spec fn apply(state: StateView, edit: Edit) -> StateView {
    match edit {
        Edit::Content { key, content } => state.edited(key, content),
        Edit::Cursor { key, range } => state.moved(key, range),
        Edit::Toggle { position } => state.toggled(position),
    }
}

/// The state after a sequence of edits, the first one first.
pub open spec fn apply_all(state: StateView, edits: Seq<Edit>) -> StateView
    decreases edits.len(),
{
    if edits.len() == 0 {
        state
    } else {
        apply(apply_all(state, edits.drop_last()), edits.last())
    }
}

/// Edits change the entries only: the document and what is committed stay,
/// and so do the keys of the entries and their order.
pub proof fn lemma_edits_keep_committed(state: StateView, edits: Seq<Edit>)
    ensures
        apply_all(state, edits).document == state.document,
        apply_all(state, edits).committed == state.committed,
        apply_all(state, edits).entries.len() == state.entries.len(),
        forall|i: int|
            0 <= i < state.entries.len() ==> (#[trigger] apply_all(state, edits).entries[i]).0
                == state.entries[i].0,
    decreases edits.len(),
{
    if edits.len() > 0 {
        lemma_edits_keep_committed(state, edits.drop_last());
    }
}

/// Every handler keeps a state in key order, and keeps the keys of the
/// entries and the keys of the committed values the same keys: what holds
/// of the state at startup holds of every state after it.
pub proof fn lemma_handlers_keep_the_keys(state: StateView, edit: Edit)
    requires
        state.wf(),
        state.aligned(),
    ensures
        apply(state, edit).wf(),
        apply(state, edit).aligned(),
        state.discarded().wf(),
        state.discarded().aligned(),
{
    lemma_mirror(state.committed);
    lemma_same_keys(state.entries, apply(state, edit).entries);
}

/// A discard after any sequence of edits gives the entries that a fresh
/// mirror of the committed values gives: the edits are gone without a trace.
pub proof fn lemma_discard_after_edits(state: StateView, edits: Seq<Edit>)
    ensures
        apply_all(state, edits).discarded().entries == mirror(state.committed),
        apply_all(state, edits).discarded() == state.discarded(),
{
    lemma_edits_keep_committed(state, edits);
}

} // verus!
