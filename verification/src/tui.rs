//! The terminal prompt's state machine: query text as Unicode scalar
//! values with a cursor, a selected row, and the counters the renderer
//! needs — every key event is a pure transition over that state.

use vstd::prelude::*;
use vstd::string::StrSliceExecFns;
use vstd::string::StringExecFns;

use crate::text;
use crate::text::is_boundary_char;
use crate::text::utf8_len;

verus! {

/// Hard cap on the query length, in characters.
pub const QUERY_MAX_CHAR_LEN: usize = 1000;

/// What a handled key event means to the session.
#[derive(Clone, Copy, Debug, PartialEq, Eq, Structural)]
pub enum PromptUIEvent {
    Exit,
    PromptUpdated,
    CursorUpdated,
    SelectionUpdated,
    SelectionDone,
}

/// A key event, as the terminal reports it.
#[derive(Clone, Copy, Debug, PartialEq, Eq, Structural)]
pub enum Key {
    Char(char),
    Ctrl(char),
    Alt(char),
    Up,
    Down,
    Left,
    Right,
    Home,
    End,
    Backspace,
    CtrlLeft,
    CtrlRight,
    AltLeft,
    AltRight,
    Other,
}

/// Which way the cursor moves.
#[derive(Clone, Copy, Debug, PartialEq, Eq, Structural)]
pub enum TextMovementDirection {
    Left,
    Right,
}

/// How far the cursor moves.
#[derive(Clone, Copy, Debug, PartialEq, Eq, Structural)]
pub enum TextMovementAmount {
    End,
    Char,
    Word,
}

/// Start of the run of boundary characters ending before `i`.
pub open spec fn skip_boundary_left(text: Seq<char>, i: int) -> int
    decreases i,
{
    if i <= 0 {
        0
    } else if is_boundary_char(text[i - 1]) {
        skip_boundary_left(text, i - 1)
    } else {
        i
    }
}

/// Start of the run of word characters ending before `i`.
pub open spec fn skip_word_left(text: Seq<char>, i: int) -> int
    decreases i,
{
    if i <= 0 {
        0
    } else if !is_boundary_char(text[i - 1]) {
        skip_word_left(text, i - 1)
    } else {
        i
    }
}

/// End of the run of boundary characters starting at `i`.
pub open spec fn skip_boundary_right(text: Seq<char>, i: int) -> int
    decreases text.len() - i,
{
    if i < 0 || i >= text.len() {
        text.len() as int
    } else if is_boundary_char(text[i]) {
        skip_boundary_right(text, i + 1)
    } else {
        i
    }
}

/// End of the run of word characters starting at `i`.
pub open spec fn skip_word_right(text: Seq<char>, i: int) -> int
    decreases text.len() - i,
{
    if i < 0 || i >= text.len() {
        text.len() as int
    } else if !is_boundary_char(text[i]) {
        skip_word_right(text, i + 1)
    } else {
        i
    }
}

/// A leftward scan never passes the start, nor moves right.
pub proof fn lemma_skip_left_le(text: Seq<char>, i: int)
    requires
        i >= 0,
    ensures
        0 <= skip_boundary_left(text, i) <= i,
        0 <= skip_word_left(text, i) <= i,
    decreases i,
{
    if i > 0 {
        lemma_skip_left_le(text, i - 1);
    }
}

/// Where the cursor lands: the word-boundary algorithm. A word move
/// first skips any run of boundary characters in the direction of
/// travel, then runs to the next boundary character or the text's
/// edge.
pub open spec fn spec_move_cursor(
    text: Seq<char>,
    cursor: int,
    direction: TextMovementDirection,
    amount: TextMovementAmount,
) -> int {
    if text.len() == 0 {
        0
    } else {
        match (direction, amount) {
            (TextMovementDirection::Left, TextMovementAmount::End) => 0,
            (TextMovementDirection::Right, TextMovementAmount::End) => text.len() as int,
            (TextMovementDirection::Left, TextMovementAmount::Char) => if cursor > 0 {
                cursor - 1
            } else {
                0
            },
            (TextMovementDirection::Right, TextMovementAmount::Char) => if cursor < text.len() {
                cursor + 1
            } else {
                cursor
            },
            (TextMovementDirection::Left, TextMovementAmount::Word) => if cursor > 0 {
                if is_boundary_char(text[cursor - 1]) {
                    skip_word_left(text, skip_boundary_left(text, cursor))
                } else {
                    skip_word_left(text, cursor)
                }
            } else {
                cursor
            },
            (TextMovementDirection::Right, TextMovementAmount::Word) => if cursor < text.len() {
                if is_boundary_char(text[cursor]) {
                    skip_word_right(text, skip_boundary_right(text, cursor))
                } else {
                    skip_word_right(text, cursor)
                }
            } else {
                cursor
            },
        }
    }
}

/// Moves `cursor` over `text` one character, one word, or to the
/// text's edge.
pub fn move_cursor(
    text: &[char],
    cursor: usize,
    direction: TextMovementDirection,
    amount: TextMovementAmount,
) -> (r: usize)
    requires
        cursor <= text@.len(),
    ensures
        r == spec_move_cursor(text@, cursor as int, direction, amount),
        r <= text@.len(),
{
    if text.len() == 0 {
        return 0;
    }
    match (direction, amount) {
        (TextMovementDirection::Left, TextMovementAmount::End) => 0,
        (TextMovementDirection::Right, TextMovementAmount::End) => text.len(),
        (TextMovementDirection::Left, TextMovementAmount::Char) => {
            if cursor > 0 {
                cursor - 1
            } else {
                0
            }
        },
        (TextMovementDirection::Right, TextMovementAmount::Char) => {
            if cursor < text.len() {
                cursor + 1
            } else {
                cursor
            }
        },
        (TextMovementDirection::Left, TextMovementAmount::Word) => {
            if cursor > 0 {
                let mut i = cursor;
                if text::is_punctuation(text[cursor - 1]) {
                    while i > 0 && text::is_punctuation(text[i - 1])
                        invariant
                            i <= text@.len(),
                            skip_boundary_left(text@, cursor as int) == skip_boundary_left(
                                text@,
                                i as int,
                            ),
                        decreases i,
                    {
                        i -= 1;
                    }
                    assert(skip_boundary_left(text@, i as int) == i);
                }
                let ghost i0 = i as int;
                while i > 0 && !text::is_punctuation(text[i - 1])
                    invariant
                        i <= text@.len(),
                        skip_word_left(text@, i0) == skip_word_left(text@, i as int),
                    decreases i,
                {
                    i -= 1;
                }
                assert(skip_word_left(text@, i as int) == i);
                i
            } else {
                cursor
            }
        },
        (TextMovementDirection::Right, TextMovementAmount::Word) => {
            if cursor < text.len() {
                let mut i = cursor;
                if text::is_punctuation(text[cursor]) {
                    while i < text.len() && text::is_punctuation(text[i])
                        invariant
                            i <= text@.len(),
                            skip_boundary_right(text@, cursor as int) == skip_boundary_right(
                                text@,
                                i as int,
                            ),
                        decreases text.len() - i,
                    {
                        i += 1;
                    }
                    assert(skip_boundary_right(text@, i as int) == i);
                }
                let ghost i0 = i as int;
                while i < text.len() && !text::is_punctuation(text[i])
                    invariant
                        i <= text@.len(),
                        skip_word_right(text@, i0) == skip_word_right(text@, i as int),
                    decreases text.len() - i,
                {
                    i += 1;
                }
                assert(skip_word_right(text@, i as int) == i);
                i
            } else {
                cursor
            }
        },
    }
}

/// The prompt's visible state, as contracts speak of it.
pub struct PromptModel {
    pub text: Seq<char>,
    pub cursor: int,
    pub selected: int,
    pub max_rows: int,
    pub lines: int,
}

/// The prompt: query text, cursor, selected row, and the two counters
/// the renderer left behind.
pub struct PromptUI {
    text_input: Vec<char>,
    text_cursor: usize,
    selected_item: u16,
    max_items: u16,
    lines_printed: u16,
}

/// What one key event does to the prompt, and what it tells the
/// session: the pure transition behind `PromptUI::handle_event`.
pub open spec fn prompt_step(m: PromptModel, key: Key) -> (PromptModel, Option<PromptUIEvent>) {
    match key {
        Key::Char('\n') => (m, Some(PromptUIEvent::SelectionDone)),
        Key::Backspace => {
            if m.text.len() > 0 && m.cursor > 0 {
                (
                    PromptModel {
                        text: m.text.remove(m.cursor - 1),
                        cursor: m.cursor - 1,
                        selected: 0,
                        ..m
                    },
                    Some(PromptUIEvent::PromptUpdated),
                )
            } else {
                (m, None)
            }
        },
        Key::Ctrl('h') | Key::Alt('\u{7f}') | Key::Ctrl('w') => {
            if m.text.len() == 0 {
                (m, None)
            } else {
                let nc = spec_move_cursor(
                    m.text,
                    m.cursor,
                    TextMovementDirection::Left,
                    TextMovementAmount::Word,
                );
                if nc == m.cursor {
                    (m, None)
                } else {
                    (
                        PromptModel {
                            text: m.text.take(nc) + m.text.skip(m.cursor),
                            cursor: nc,
                            selected: 0,
                            ..m
                        },
                        Some(PromptUIEvent::PromptUpdated),
                    )
                }
            }
        },
        Key::Up | Key::Ctrl('p') => {
            if m.selected > 0 {
                (PromptModel { selected: m.selected - 1, ..m }, Some(PromptUIEvent::SelectionUpdated))
            } else {
                (m, None)
            }
        },
        Key::Down | Key::Ctrl('n') => {
            if m.selected + 1 < m.max_rows {
                (PromptModel { selected: m.selected + 1, ..m }, Some(PromptUIEvent::SelectionUpdated))
            } else {
                (m, None)
            }
        },
        Key::Left | Key::Ctrl('b') => {
            (
                PromptModel {
                    cursor: spec_move_cursor(
                        m.text,
                        m.cursor,
                        TextMovementDirection::Left,
                        TextMovementAmount::Char,
                    ),
                    ..m
                },
                Some(PromptUIEvent::CursorUpdated),
            )
        },
        Key::Right | Key::Ctrl('f') => {
            (
                PromptModel {
                    cursor: spec_move_cursor(
                        m.text,
                        m.cursor,
                        TextMovementDirection::Right,
                        TextMovementAmount::Char,
                    ),
                    ..m
                },
                Some(PromptUIEvent::CursorUpdated),
            )
        },
        Key::CtrlLeft | Key::AltLeft | Key::Alt('b') => {
            (
                PromptModel {
                    cursor: spec_move_cursor(
                        m.text,
                        m.cursor,
                        TextMovementDirection::Left,
                        TextMovementAmount::Word,
                    ),
                    ..m
                },
                Some(PromptUIEvent::CursorUpdated),
            )
        },
        Key::CtrlRight | Key::AltRight | Key::Alt('f') => {
            (
                PromptModel {
                    cursor: spec_move_cursor(
                        m.text,
                        m.cursor,
                        TextMovementDirection::Right,
                        TextMovementAmount::Word,
                    ),
                    ..m
                },
                Some(PromptUIEvent::CursorUpdated),
            )
        },
        Key::Home | Key::Ctrl('a') => {
            (
                PromptModel {
                    cursor: spec_move_cursor(
                        m.text,
                        m.cursor,
                        TextMovementDirection::Left,
                        TextMovementAmount::End,
                    ),
                    ..m
                },
                Some(PromptUIEvent::CursorUpdated),
            )
        },
        Key::End | Key::Ctrl('e') => {
            (
                PromptModel {
                    cursor: spec_move_cursor(
                        m.text,
                        m.cursor,
                        TextMovementDirection::Right,
                        TextMovementAmount::End,
                    ),
                    ..m
                },
                Some(PromptUIEvent::CursorUpdated),
            )
        },
        Key::Ctrl('c') | Key::Ctrl('d') => (m, Some(PromptUIEvent::Exit)),
        Key::Char(ch) => {
            if m.text.len() < QUERY_MAX_CHAR_LEN {
                (
                    PromptModel {
                        text: m.text.insert(m.cursor, ch),
                        cursor: m.cursor + 1,
                        selected: 0,
                        ..m
                    },
                    Some(PromptUIEvent::PromptUpdated),
                )
            } else {
                (m, None)
            }
        },
        _ => (m, None),
    }
}

impl PromptUI {
    /// The state a contract sees.
    pub closed spec fn model(&self) -> PromptModel {
        PromptModel {
            text: self.text_input@,
            cursor: self.text_cursor as int,
            selected: self.selected_item as int,
            max_rows: self.max_items as int,
            lines: self.lines_printed as int,
        }
    }

    /// The cursor stays inside the text, and the text inside the cap.
    pub open spec fn wf(&self) -> bool {
        0 <= self.model().cursor <= self.model().text.len() && self.model().text.len()
            <= QUERY_MAX_CHAR_LEN && 0 <= self.model().selected && self.model().max_rows >= 0
    }

    /// A fresh prompt seeded with `initial_text_input`, truncated to
    /// the cap, cursor at the end, nothing selected or rendered yet.
    pub fn new(initial_text_input: &str) -> (ui: PromptUI)
        ensures
            ui.wf(),
            ui.model().text == initial_text_input@.take(
                if initial_text_input@.len() < QUERY_MAX_CHAR_LEN {
                    initial_text_input@.len() as int
                } else {
                    QUERY_MAX_CHAR_LEN as int
                },
            ),
            ui.model().cursor == ui.model().text.len(),
            ui.model().selected == 0,
            ui.model().max_rows == 0,
            ui.model().lines == 0,
    {
        let all = text::chars_of(initial_text_input);
        let keep = if all.len() < QUERY_MAX_CHAR_LEN {
            all.len()
        } else {
            QUERY_MAX_CHAR_LEN
        };
        let text_input = text::copy_range(all.as_slice(), 0, keep);
        let cursor_pos = text_input.len();
        proof {
            assert(all@.subrange(0, keep as int) =~= all@.take(keep as int));
        }
        PromptUI {
            text_input,
            text_cursor: cursor_pos,
            selected_item: 0,
            max_items: 0,
            lines_printed: 0,
        }
    }

    /// The query text.
    pub fn text_input(&self) -> (r: &Vec<char>)
        ensures
            r@ == self.model().text,
    {
        &self.text_input
    }

    /// The selected row.
    pub fn selected_item(&self) -> (r: u16)
        ensures
            r as int == self.model().selected,
    {
        self.selected_item
    }

    /// Applies one key event: a pure state transition, reporting what
    /// changed. The query never grows past the cap; a printable
    /// character beyond it is dropped silently.
    pub fn handle_event(&mut self, key: Key) -> (r: Option<PromptUIEvent>)
        requires
            old(self).wf(),
        ensures
            final(self).wf(),
            (final(self).model(), r) == prompt_step(old(self).model(), key),
    {
        let ghost m0 = self.model();
        match key {
            Key::Char(ch) => {
                if ch == '\n' {
                    return Some(PromptUIEvent::SelectionDone);
                }
                if self.text_input.len() < QUERY_MAX_CHAR_LEN {
                    if self.text_cursor == self.text_input.len() {
                        self.text_input.push(ch);
                        proof {
                            assert(self.text_input@ =~= m0.text.insert(m0.cursor, ch));
                        }
                    } else {
                        self.text_input.insert(self.text_cursor, ch);
                    }
                    self.text_cursor += 1;
                    self.selected_item = 0;
                    Some(PromptUIEvent::PromptUpdated)
                } else {
                    None
                }
            },
            Key::Backspace => {
                if self.text_input.len() > 0 && self.text_cursor > 0 {
                    self.text_cursor -= 1;
                    self.text_input.remove(self.text_cursor);
                    self.selected_item = 0;
                    Some(PromptUIEvent::PromptUpdated)
                } else {
                    None
                }
            },
            Key::Ctrl('h') | Key::Alt('\u{7f}') | Key::Ctrl('w') => {
                if self.text_input.len() == 0 {
                    return None;
                }
                let nc = move_cursor(
                    self.text_input.as_slice(),
                    self.text_cursor,
                    TextMovementDirection::Left,
                    TextMovementAmount::Word,
                );
                proof {
                    lemma_skip_left_le(m0.text, m0.cursor);
                    lemma_skip_left_le(m0.text, skip_boundary_left(m0.text, m0.cursor));
                }
                if nc == self.text_cursor {
                    return None;
                }
                let kept = text::copy_range(self.text_input.as_slice(), 0, nc);
                let mut rebuilt = kept;
                let mut i = self.text_cursor;
                proof {
                    assert(rebuilt@ =~= m0.text.take(nc as int) + m0.text.subrange(
                        m0.cursor,
                        m0.cursor,
                    ));
                }
                while i < self.text_input.len()
                    invariant
                        nc <= m0.cursor <= i <= self.text_input@.len(),
                        self.text_input@ == m0.text,
                        rebuilt@ == m0.text.take(nc as int) + m0.text.subrange(m0.cursor, i as int),
                    decreases self.text_input.len() - i,
                {
                    let c = self.text_input[i];
                    rebuilt.push(c);
                    proof {
                        assert(rebuilt@ =~= m0.text.take(nc as int) + m0.text.subrange(
                            m0.cursor,
                            i + 1,
                        ));
                    }
                    i += 1;
                }
                proof {
                    assert(m0.text.subrange(m0.cursor, m0.text.len() as int) =~= m0.text.skip(
                        m0.cursor,
                    ));
                    assert(rebuilt@ =~= m0.text.take(nc as int) + m0.text.skip(m0.cursor));
                }
                self.text_input = rebuilt;
                self.text_cursor = nc;
                self.selected_item = 0;
                Some(PromptUIEvent::PromptUpdated)
            },
            Key::Up | Key::Ctrl('p') => {
                if self.selected_item > 0 {
                    self.selected_item = self.selected_item - 1;
                    Some(PromptUIEvent::SelectionUpdated)
                } else {
                    None
                }
            },
            Key::Down | Key::Ctrl('n') => {
                if (self.selected_item as u32) + 1 < (self.max_items as u32) {
                    self.selected_item = self.selected_item + 1;
                    Some(PromptUIEvent::SelectionUpdated)
                } else {
                    None
                }
            },
            Key::Left | Key::Ctrl('b') => {
                self.text_cursor = move_cursor(
                    self.text_input.as_slice(),
                    self.text_cursor,
                    TextMovementDirection::Left,
                    TextMovementAmount::Char,
                );
                Some(PromptUIEvent::CursorUpdated)
            },
            Key::Right | Key::Ctrl('f') => {
                self.text_cursor = move_cursor(
                    self.text_input.as_slice(),
                    self.text_cursor,
                    TextMovementDirection::Right,
                    TextMovementAmount::Char,
                );
                Some(PromptUIEvent::CursorUpdated)
            },
            Key::CtrlLeft | Key::AltLeft | Key::Alt('b') => {
                self.text_cursor = move_cursor(
                    self.text_input.as_slice(),
                    self.text_cursor,
                    TextMovementDirection::Left,
                    TextMovementAmount::Word,
                );
                Some(PromptUIEvent::CursorUpdated)
            },
            Key::CtrlRight | Key::AltRight | Key::Alt('f') => {
                self.text_cursor = move_cursor(
                    self.text_input.as_slice(),
                    self.text_cursor,
                    TextMovementDirection::Right,
                    TextMovementAmount::Word,
                );
                Some(PromptUIEvent::CursorUpdated)
            },
            Key::Home | Key::Ctrl('a') => {
                self.text_cursor = move_cursor(
                    self.text_input.as_slice(),
                    self.text_cursor,
                    TextMovementDirection::Left,
                    TextMovementAmount::End,
                );
                Some(PromptUIEvent::CursorUpdated)
            },
            Key::End | Key::Ctrl('e') => {
                self.text_cursor = move_cursor(
                    self.text_input.as_slice(),
                    self.text_cursor,
                    TextMovementDirection::Right,
                    TextMovementAmount::End,
                );
                Some(PromptUIEvent::CursorUpdated)
            },
            Key::Ctrl(c) => {
                if c == 'c' || c == 'd' {
                    Some(PromptUIEvent::Exit)
                } else {
                    None
                }
            },
            _ => None,
        }
    }
}

/// The content of one rendered result row: a four-character marker —
/// `  * ` on the selected row — then the item, truncated to the
/// terminal width (at least six characters of it).
pub open spec fn row_text(item: Seq<char>, selected: bool, width: int) -> Seq<char> {
    let prefix = if selected {
        "  * "@
    } else {
        "    "@
    };
    let avail = if width >= 10 {
        width - 4
    } else {
        6
    };
    prefix + item.take(
        if item.len() < avail {
            item.len() as int
        } else {
            avail
        },
    )
}

impl PromptUI {
    /// Lays out one frame: the content of up to `height - 2` result
    /// rows, the selected one marked. Records how many rows the frame
    /// shows and that the frame occupies one line more — the prompt
    /// line the renderer writes above the rows.
    pub fn render_frame(&mut self, items: &[String], width: u16, height: u16) -> (rows: Vec<
        String,
    >)
        requires
            old(self).wf(),
            height >= 2,
        ensures
            final(self).wf(),
            final(self).model().text == old(self).model().text,
            final(self).model().cursor == old(self).model().cursor,
            final(self).model().selected == old(self).model().selected,
            ({
                let shown = if items@.len() < height - 2 {
                    items@.len() as int
                } else {
                    height - 2
                };
                &&& final(self).model().max_rows == shown
                &&& final(self).model().lines == 1 + shown
                &&& rows@.len() == shown
                &&& (forall|k: int|
                    0 <= k < shown ==> (#[trigger] rows@[k])@ == row_text(
                        items@[k]@,
                        k == old(self).model().selected,
                        width as int,
                    ))
            }),
    {
        let ghost sel = self.model().selected;
        let shown_limit = (height - 2) as usize;
        let mut rows: Vec<String> = Vec::new();
        let mut k: usize = 0;
        while k < items.len() && k < shown_limit
            invariant
                sel == self.model().selected,
                self == old(self),
                k <= items@.len(),
                k <= shown_limit,
                rows@.len() == k,
                forall|m: int|
                    0 <= m < k ==> (#[trigger] rows@[m])@ == row_text(
                        items@[m]@,
                        m == sel,
                        width as int,
                    ),
            decreases items.len() - k,
        {
            let mut row = String::new();
            if k == self.selected_item as usize {
                row.append("  * ");
            } else {
                row.append("    ");
            }
            let ghost prefix = row@;
            let item = &items[k];
            let ilen = item.as_str().unicode_len();
            let avail = if width >= 10 {
                (width - 4) as usize
            } else {
                6
            };
            let keep = if ilen < avail {
                ilen
            } else {
                avail
            };
            row.append(item.as_str().substring_char(0, keep));
            proof {
                assert(items@[k as int]@.subrange(0, keep as int) =~= items@[k as int]@.take(
                    keep as int,
                ));
                assert(row@ == row_text(items@[k as int]@, k == sel, width as int));
            }
            rows.push(row);
            k += 1;
        }
        self.max_items = rows.len() as u16;
        self.lines_printed = (rows.len() as u16) + 1;
        rows
    }

    /// The encoded byte length of the text before the cursor: how far
    /// right of the prompt marker the terminal cursor belongs.
    pub fn cursor_byte_offset(&self) -> (r: u16)
        requires
            self.wf(),
        ensures
            r == utf8_len(self.model().text.take(self.model().cursor)),
    {
        let mut r: u16 = 0;
        let mut i: usize = 0;
        proof {
            assert(self.model().text.take(0) =~= Seq::<char>::empty());
        }
        while i < self.text_cursor
            invariant
                self.wf(),
                i <= self.model().cursor,
                r == utf8_len(self.model().text.take(i as int)),
                r <= 4 * i,
            decreases self.text_cursor - i,
        {
            let c = self.text_input[i];
            proof {
                let t = self.model().text;
                assert(t.take(i + 1) =~= t.take(i as int) + seq![t[i as int]]);
                text::lemma_utf8_len_concat(t.take(i as int), seq![t[i as int]]);
                assert(seq![t[i as int]][0] == t[i as int]);
                assert(seq![t[i as int]].drop_first() =~= Seq::<char>::empty());
                assert(utf8_len(Seq::<char>::empty()) == 0);
                assert(utf8_len(seq![t[i as int]]) == text::char_utf8_len(t[i as int]));
            }
            r = r + (text::char_len_utf8(c) as u16);
            i += 1;
        }
        r
    }
}

} // verus!
