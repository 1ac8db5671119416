//! The edit buffer: one key's editable text and a cursor.

use vstd::prelude::*;

verus! {

/// What an edit buffer holds, as plain values.
pub struct BufferView {
    pub content: Seq<char>,
    pub cursor: (usize, usize),
}

/// One key's editable text together with a cursor range.
///
/// Two buffers are equal when their contents are equal: the cursor takes no
/// part in equality, so moving it alone never makes a state count as changed.
#[derive(Debug)]
pub struct EditBuffer {
    content: String,
    cursor: (usize, usize),
}

impl View for EditBuffer {
    type V = BufferView;

    closed spec fn view(&self) -> BufferView {
        BufferView { content: self.content@, cursor: self.cursor }
    }
}

impl EditBuffer {
    /// A buffer with the given content and cursor. Any text is accepted.
    pub fn new(content: String, cursor: (usize, usize)) -> (b: EditBuffer)
        ensures
            b@ == (BufferView { content: content@, cursor }),
    {
        EditBuffer { content, cursor }
    }

    /// A buffer with the given content and the cursor at the start.
    pub fn fresh(content: String) -> (b: EditBuffer)
        ensures
            b@ == (BufferView { content: content@, cursor: (0usize, 0usize) }),
    {
        EditBuffer { content, cursor: (0, 0) }
    }

    /// The content.
    pub fn get_content(&self) -> (s: String)
        ensures
            s@ == self@.content,
    {
        self.content.clone()
    }

    /// The content, borrowed.
    pub fn content(&self) -> (s: &str)
        ensures
            s@ == self@.content,
    {
        self.content.as_str()
    }

    /// Replaces the content and leaves the cursor where it is.
    pub fn set_content(&mut self, s: &str)
        ensures
            final(self)@ == (BufferView { content: s@, cursor: old(self)@.cursor }),
    {
        self.content = s.to_owned();
    }

    /// Whether the content is `text`.
    pub fn holds(&self, text: &String) -> (r: bool)
        ensures
            r == (self@.content == text@),
    {
        self.content == *text
    }

    /// Whether two buffers have the same content.
    pub fn same_content(&self, other: &EditBuffer) -> (r: bool)
        ensures
            r == (self@.content == other@.content),
    {
        self.content == other.content
    }

    /// The cursor range.
    pub fn get_cursor(&self) -> (c: (usize, usize))
        ensures
            c == self@.cursor,
    {
        self.cursor
    }

    /// Moves the cursor and leaves the content as it is.
    pub fn set_cursor(&mut self, range: (usize, usize))
        ensures
            final(self)@ == (BufferView { content: old(self)@.content, cursor: range }),
    {
        self.cursor = range;
    }
}

impl Clone for EditBuffer {
    fn clone(&self) -> (b: EditBuffer)
        ensures
            b@ == self@,
    {
        EditBuffer { content: self.content.clone(), cursor: self.cursor }
    }
}

impl PartialEq for EditBuffer {
    fn eq(&self, other: &EditBuffer) -> (r: bool) {
        self.same_content(other)
    }
}

impl vstd::std_specs::cmp::PartialEqSpecImpl for EditBuffer {
    open spec fn obeys_eq_spec() -> bool {
        true
    }

    open spec fn eq_spec(&self, other: &EditBuffer) -> bool {
        self@.content == other@.content
    }
}

} // verus!
