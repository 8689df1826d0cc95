use vstd::prelude::*;
use vstd::utf8::{encode_scalar, encode_utf8};
use crate::text::{chars_of, string_of};

verus! {

/// The display width that the `unicode-width` crate gives a character, in
/// terminal columns; `None` for a control character.
pub uninterp spec fn char_width(c: char) -> Option<usize>;

/// Relies on `UnicodeWidthChar::width` of unicode-width: the character's
/// display width, `None` for control characters. Its lookup tables hold no
/// width above three.
#[verifier::external_body]
fn width_of(c: char) -> (r: Option<usize>)
    ensures
        r == char_width(c),
        r matches Some(w) ==> w <= 3,
{
    unicode_width::UnicodeWidthChar::width(c)
}

/// The most characters an editor holds: few enough that its byte offset and
/// display column always fit in a `usize`.
pub const MAX_CHARS: usize = 0x3fff_ffff;

/// The columns a character takes on screen; a control character takes none.
pub open spec fn columns(c: char) -> nat {
    match char_width(c) {
        Some(w) => w as nat,
        None => 0,
    }
}

/// The columns a text takes on screen: the sum over its characters.
pub open spec fn width(s: Seq<char>) -> nat
    decreases s.len(),
{
    if s.len() == 0 {
        0
    } else {
        width(s.drop_last()) + columns(s.last())
    }
}

/// The length of a text in UTF-8 bytes.
pub open spec fn byte_len(s: Seq<char>) -> nat {
    encode_utf8(s).len()
}

/// The abstract state of an editor: the text, and the cursor as the number of
/// characters before it.
pub struct EditState {
    pub text: Seq<char>,
    pub cursor: nat,
}

/// The cursor's byte offset into the UTF-8 text.
pub open spec fn offset_of(s: EditState) -> nat {
    byte_len(s.text.take(s.cursor as int))
}

/// The cursor's display column: the width of the text before it.
pub open spec fn column_of(s: EditState) -> nat {
    width(s.text.take(s.cursor as int))
}

/// Typing `c`: it goes in at the cursor, which moves past it. A control
/// character, or a character beyond the editor's capacity, changes nothing.
pub open spec fn after_insert(s: EditState, c: char) -> EditState {
    if char_width(c) is None || s.text.len() >= MAX_CHARS {
        s
    } else {
        EditState { text: s.text.insert(s.cursor as int, c), cursor: s.cursor + 1 }
    }
}

/// Backspace: the character before the cursor goes, and the cursor moves back
/// over it; nothing happens at the start.
pub open spec fn after_backspace(s: EditState) -> EditState {
    if s.cursor == 0 {
        s
    } else {
        EditState { text: s.text.remove(s.cursor - 1), cursor: (s.cursor - 1) as nat }
    }
}

/// Delete: the character at the cursor goes, the cursor stays; nothing
/// happens at the end.
pub open spec fn after_delete(s: EditState) -> EditState {
    if s.cursor >= s.text.len() {
        s
    } else {
        EditState { text: s.text.remove(s.cursor as int), cursor: s.cursor }
    }
}

/// The cursor one character left, unless it is at the start.
pub open spec fn after_left(s: EditState) -> EditState {
    if s.cursor == 0 {
        s
    } else {
        EditState { cursor: (s.cursor - 1) as nat, ..s }
    }
}

/// The cursor one character right, unless it is at the end.
pub open spec fn after_right(s: EditState) -> EditState {
    if s.cursor >= s.text.len() {
        s
    } else {
        EditState { cursor: s.cursor + 1, ..s }
    }
}

/// A key as the editor sees it.
#[derive(Clone, Copy, Debug, PartialEq, Eq, Structural)]
pub enum EditKey {
    Char(char),
    Enter,
    Backspace,
    Delete,
    Left,
    Right,
    Other,
}

/// What a key does to the editor's state.
pub open spec fn after_key(s: EditState, key: EditKey) -> EditState {
    match key {
        EditKey::Char(c) => after_insert(s, c),
        EditKey::Backspace => after_backspace(s),
        EditKey::Delete => after_delete(s),
        EditKey::Left => after_left(s),
        EditKey::Right => after_right(s),
        EditKey::Enter => s,
        EditKey::Other => s,
    }
}

/// Every character of `s` takes at most three columns.
pub open spec fn narrow(s: Seq<char>) -> bool {
    forall|i: int| 0 <= i < s.len() ==> columns(#[trigger] s[i]) <= 3
}

proof fn lemma_encode_append(a: Seq<char>, b: Seq<char>)
    ensures
        encode_utf8(a + b) == encode_utf8(a) + encode_utf8(b),
    decreases a.len(),
{
    if a.len() == 0 {
        assert(a + b =~= b);
        assert(encode_utf8(a) =~= Seq::<u8>::empty());
        assert(encode_utf8(a) + encode_utf8(b) =~= encode_utf8(b));
    } else {
        assert((a + b).drop_first() =~= a.drop_first() + b);
        assert((a + b)[0] == a[0]);
        lemma_encode_append(a.drop_first(), b);
        assert(encode_utf8(a + b) =~= encode_utf8(a) + encode_utf8(b));
    }
}

proof fn lemma_byte_len_push(a: Seq<char>, c: char)
    ensures
        byte_len(a.push(c)) == byte_len(a) + encode_scalar(c as u32).len(),
        1 <= encode_scalar(c as u32).len() <= 4,
{
    lemma_encode_append(a, seq![c]);
    assert(a.push(c) =~= a + seq![c]);
    assert(seq![c].drop_first() =~= Seq::<char>::empty());
    assert(seq![c][0] == c);
    assert(encode_utf8(Seq::<char>::empty()) =~= Seq::<u8>::empty());
    assert(encode_utf8(seq![c]) =~= encode_scalar(c as u32));
}

proof fn lemma_width_push(a: Seq<char>, c: char)
    ensures
        width(a.push(c)) == width(a) + columns(c),
{
    assert(a.push(c).drop_last() =~= a);
}

proof fn lemma_prefix_bounds(s: Seq<char>, k: int)
    requires
        0 <= k <= s.len(),
        narrow(s),
    ensures
        byte_len(s.take(k)) <= 4 * k,
        width(s.take(k)) <= 3 * k,
    decreases k,
{
    if k > 0 {
        lemma_prefix_bounds(s, k - 1);
        assert(s.take(k) =~= s.take(k - 1).push(s[k - 1]));
        lemma_byte_len_push(s.take(k - 1), s[k - 1]);
        lemma_width_push(s.take(k - 1), s[k - 1]);
    } else {
        assert(s.take(0) =~= Seq::<char>::empty());
        assert(encode_utf8(Seq::<char>::empty()) =~= Seq::<u8>::empty());
    }
}

/// The number of bytes of `c` in UTF-8.
fn utf8_len(c: char) -> (r: usize)
    ensures
        r == encode_scalar(c as u32).len(),
{
    let v = c as u32;
    if v <= 0x7F {
        1
    } else if v <= 0x7FF {
        2
    } else if v <= 0xFFFF {
        3
    } else {
        4
    }
}

/// The columns that `c` takes on screen.
fn columns_of(c: char) -> (r: usize)
    ensures
        r == columns(c),
        r <= 3,
{
    match width_of(c) {
        Some(w) => w,
        None => 0,
    }
}

/// A single-line text editor with a cursor. The cursor is kept as a count of
/// characters, as a byte offset into the UTF-8 text, and as a display column,
/// all three in step.
pub struct LineEditor {
    text: Vec<char>,
    cursor: usize,
    index: usize,
    column: usize,
}

impl View for LineEditor {
    type V = EditState;

    closed spec fn view(&self) -> EditState {
        EditState { text: self.text@, cursor: self.cursor as nat }
    }
}

impl LineEditor {
    /// The cursor is within the text, the text within the editor's capacity,
    /// and the byte offset and column agree with the cursor.
    pub closed spec fn wf(&self) -> bool {
        &&& self.cursor <= self.text.len() <= MAX_CHARS
        &&& narrow(self.text@)
        &&& self.index == offset_of(self@)
        &&& self.column == column_of(self@)
    }

    /// An editor holding `initial`, with the cursor at its end: an empty
    /// string for a new entry, the old text to edit one.
    pub fn new(initial: &str) -> (r: LineEditor)
        requires
            initial@.len() <= MAX_CHARS,
        ensures
            r.wf(),
            r@.text == initial@,
            r@.cursor == initial@.len(),
    {
        let text = chars_of(initial);
        let mut index: usize = 0;
        let mut column: usize = 0;
        let mut k: usize = 0;
        proof {
            assert(text@.take(0) =~= Seq::<char>::empty());
            assert(encode_utf8(Seq::<char>::empty()) =~= Seq::<u8>::empty());
        }
        while k < text.len()
            invariant
                k <= text.len() <= MAX_CHARS,
                narrow(text@.take(k as int)),
                index == byte_len(text@.take(k as int)),
                column == width(text@.take(k as int)),
                index <= 4 * k,
                column <= 3 * k,
            decreases text.len() - k,
        {
            let c = text[k];
            let w = columns_of(c);
            proof {
                assert(text@.take(k + 1) =~= text@.take(k as int).push(c));
                lemma_byte_len_push(text@.take(k as int), c);
                lemma_width_push(text@.take(k as int), c);
            }
            index = index + utf8_len(c);
            column = column + w;
            k += 1;
        }
        assert(text@.take(k as int) =~= text@);
        LineEditor { text, cursor: k, index, column }
    }

    /// The text being edited.
    pub fn commit(&self) -> (r: String)
        ensures
            r@ == self@.text,
    {
        string_of(&self.text)
    }

    /// The cursor's byte offset into the UTF-8 text.
    pub fn index(&self) -> (r: usize)
        requires
            self.wf(),
        ensures
            r == offset_of(self@),
    {
        self.index
    }

    /// The cursor's display column.
    pub fn column(&self) -> (r: usize)
        requires
            self.wf(),
        ensures
            r == column_of(self@),
    {
        self.column
    }

    /// Inserts `c` at the cursor and moves the cursor past it; ignores control
    /// characters, and any character once the editor is full.
    pub fn insert(&mut self, c: char)
        requires
            old(self).wf(),
        ensures
            final(self).wf(),
            final(self)@ == after_insert(old(self)@, c),
    {
        let w = width_of(c);
        if w.is_none() || self.text.len() >= MAX_CHARS {
            return;
        }
        let n = columns_of(c);
        let ghost old_text = self.text@;
        let ghost before = old_text.take(self.cursor as int);
        proof {
            lemma_byte_len_push(before, c);
            lemma_width_push(before, c);
            lemma_prefix_bounds(old_text, self.cursor as int);
        }
        self.text.insert(self.cursor, c);
        self.cursor = self.cursor + 1;
        self.index = self.index + utf8_len(c);
        self.column = self.column + n;
        proof {
            assert(self.text@.take(self.cursor as int) =~= before.push(c));
            assert forall|i: int| 0 <= i < self.text@.len() implies columns(
                #[trigger] self.text@[i],
            ) <= 3 by {
                if i < self.cursor - 1 {
                    assert(self.text@[i] == old_text[i]);
                } else if i > self.cursor - 1 {
                    assert(self.text@[i] == old_text[i - 1]);
                }
            }
        }
    }

    /// Removes the character before the cursor, which moves back over it;
    /// nothing happens at the start.
    pub fn backspace(&mut self)
        requires
            old(self).wf(),
        ensures
            final(self).wf(),
            final(self)@ == after_backspace(old(self)@),
    {
        if self.cursor == 0 {
            return;
        }
        let ghost old_text = self.text@;
        let ghost kept = old_text.take(self.cursor - 1);
        let c = self.text.remove(self.cursor - 1);
        proof {
            assert(old_text.take(self.cursor as int) =~= kept.push(c));
            lemma_byte_len_push(kept, c);
            lemma_width_push(kept, c);
        }
        self.cursor = self.cursor - 1;
        self.index = self.index - utf8_len(c);
        self.column = self.column - columns_of(c);
        proof {
            assert(self.text@.take(self.cursor as int) =~= kept);
            assert forall|i: int| 0 <= i < self.text@.len() implies columns(
                #[trigger] self.text@[i],
            ) <= 3 by {
                if i < self.cursor {
                    assert(self.text@[i] == old_text[i]);
                } else {
                    assert(self.text@[i] == old_text[i + 1]);
                }
            }
        }
    }

    /// Removes the character at the cursor, which stays; nothing happens at
    /// the end.
    pub fn delete_forward(&mut self)
        requires
            old(self).wf(),
        ensures
            final(self).wf(),
            final(self)@ == after_delete(old(self)@),
    {
        if self.cursor >= self.text.len() {
            return;
        }
        let ghost old_text = self.text@;
        let ghost before = old_text.take(self.cursor as int);
        self.text.remove(self.cursor);
        proof {
            assert(self.text@.take(self.cursor as int) =~= before);
            assert forall|i: int| 0 <= i < self.text@.len() implies columns(
                #[trigger] self.text@[i],
            ) <= 3 by {
                if i < self.cursor {
                    assert(self.text@[i] == old_text[i]);
                } else {
                    assert(self.text@[i] == old_text[i + 1]);
                }
            }
        }
    }

    /// Moves the cursor one character left; nothing happens at the start.
    pub fn move_left(&mut self)
        requires
            old(self).wf(),
        ensures
            final(self).wf(),
            final(self)@ == after_left(old(self)@),
    {
        if self.cursor == 0 {
            return;
        }
        let c = self.text[self.cursor - 1];
        let ghost kept = self.text@.take(self.cursor - 1);
        proof {
            assert(self.text@.take(self.cursor as int) =~= kept.push(c));
            lemma_byte_len_push(kept, c);
            lemma_width_push(kept, c);
        }
        self.cursor = self.cursor - 1;
        self.index = self.index - utf8_len(c);
        self.column = self.column - columns_of(c);
    }

    /// Moves the cursor one character right; nothing happens at the end.
    pub fn move_right(&mut self)
        requires
            old(self).wf(),
        ensures
            final(self).wf(),
            final(self)@ == after_right(old(self)@),
    {
        if self.cursor >= self.text.len() {
            return;
        }
        let c = self.text[self.cursor];
        let ghost before = self.text@.take(self.cursor as int);
        proof {
            assert(self.text@.take(self.cursor + 1) =~= before.push(c));
            lemma_byte_len_push(before, c);
            lemma_width_push(before, c);
            lemma_prefix_bounds(self.text@, self.cursor + 1);
        }
        self.cursor = self.cursor + 1;
        self.index = self.index + utf8_len(c);
        self.column = self.column + columns_of(c);
    }

    /// Applies a key: a character is typed, the editing keys edit, Enter and
    /// anything else leave the state alone. Tells whether the key was Enter,
    /// which ends the entry.
    pub fn handle_key(&mut self, key: EditKey) -> (done: bool)
        requires
            old(self).wf(),
        ensures
            final(self).wf(),
            final(self)@ == after_key(old(self)@, key),
            done == (key == EditKey::Enter),
    {
        match key {
            EditKey::Char(c) => {
                self.insert(c);
                false
            },
            EditKey::Backspace => {
                self.backspace();
                false
            },
            EditKey::Delete => {
                self.delete_forward();
                false
            },
            EditKey::Left => {
                self.move_left();
                false
            },
            EditKey::Right => {
                self.move_right();
                false
            },
            EditKey::Enter => true,
            EditKey::Other => false,
        }
    }
}

/// Typing a character that has a width and then pressing backspace restores
/// the text and cursor; on the way the column moves right by the character's
/// width and the byte offset by its UTF-8 length, and back by the same.
pub proof fn lemma_insert_then_backspace(s: EditState, c: char)
    requires
        s.cursor <= s.text.len() < MAX_CHARS,
        char_width(c) is Some,
    ensures
        after_backspace(after_insert(s, c)) == s,
        column_of(after_insert(s, c)) == column_of(s) + columns(c),
        offset_of(after_insert(s, c)) == offset_of(s) + encode_scalar(c as u32).len(),
{
    let t = after_insert(s, c);
    let before = s.text.take(s.cursor as int);
    assert(t.text.take(t.cursor as int) =~= before.push(c));
    lemma_byte_len_push(before, c);
    lemma_width_push(before, c);
    assert(t.text.remove(s.cursor as int) =~= s.text);
}

} // verus!
