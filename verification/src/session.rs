//! The interactive search loop's decisions: what one key event does
//! to the session — re-rank, re-render, finish with a selection, or
//! finish with none. The terminal I/O around these decisions lives
//! outside the library.

use vstd::prelude::*;

use crate::db::DBView;
use crate::db::ranked_of;
use crate::tui::Key;
use crate::tui::PromptUI;
use crate::tui::PromptUIEvent;
use crate::tui::prompt_step;

verus! {

/// What the loop should do after one key event.
#[derive(Clone, Copy, Debug, PartialEq, Eq, Structural)]
pub enum SearchStep {
    /// Keep going; redraw the frame when `render` holds.
    Pending { render: bool },
    /// Stop, reporting the chosen result row, or none.
    Done { selection: Option<usize> },
}

/// Seeds a search session: ranks every record against `query` and,
/// when exactly one record matches, reports it at once — the fast
/// path that skips the interactive prompt entirely.
pub fn find_init(view: &DBView, query: &str, results: &mut Vec<(String, u64)>) -> (r: Option<
    String,
>)
    ensures
        ({
            let rr = ranked_of(view@, query@, view@.len() as int);
            &&& final(results)@.len() == rr.len()
            &&& (forall|i: int|
                0 <= i < rr.len() ==> (#[trigger] final(results)@[i]).0@ == rr[i].0
                    && final(results)@[i].1 as int == rr[i].1)
            &&& match r {
                Some(s) => rr.len() == 1 && s@ == rr[0].0,
                None => rr.len() != 1,
            }
        }),
{
    view.find_matches(query, results);
    if results.len() == 1 {
        let s = results[0].0.clone();
        Some(s)
    } else {
        None
    }
}

/// Feeds one key event through the prompt and decides what the loop
/// does next: a prompt change re-ranks the results against the new
/// text and redraws; selection or cursor changes redraw only;
/// confirming reports the selected row — or none, when the selection
/// no longer lies within the current results; cancelling reports
/// none; an unrecognized key does nothing.
pub fn find_step(view: &DBView, ui: &mut PromptUI, results: &mut Vec<(String, u64)>, key: Key) -> (r:
    SearchStep)
    requires
        old(ui).wf(),
    ensures
        final(ui).wf(),
        final(ui).model() == prompt_step(old(ui).model(), key).0,
        ({
            let ev = prompt_step(old(ui).model(), key).1;
            match ev {
                Option::None => r == (SearchStep::Pending { render: false }) && final(results)@
                    == old(results)@,
                Option::Some(e) => match e {
                    PromptUIEvent::PromptUpdated => ({
                        let rr = ranked_of(
                            view@,
                            prompt_step(old(ui).model(), key).0.text,
                            view@.len() as int,
                        );
                        &&& r == (SearchStep::Pending { render: true })
                        &&& final(results)@.len() == rr.len()
                        &&& (forall|i: int|
                            0 <= i < rr.len() ==> (#[trigger] final(results)@[i]).0@ == rr[i].0
                                && final(results)@[i].1 as int == rr[i].1)
                    }),
                    PromptUIEvent::SelectionUpdated => r == (SearchStep::Pending { render: true })
                        && final(results)@ == old(results)@,
                    PromptUIEvent::CursorUpdated => r == (SearchStep::Pending { render: true })
                        && final(results)@ == old(results)@,
                    PromptUIEvent::Exit => r == (SearchStep::Done { selection: None })
                        && final(results)@ == old(results)@,
                    PromptUIEvent::SelectionDone => final(results)@ == old(results)@ && r == (
                    SearchStep::Done {
                        selection: if prompt_step(old(ui).model(), key).0.selected < old(
                            results,
                        )@.len() {
                            Some(prompt_step(old(ui).model(), key).0.selected as usize)
                        } else {
                            None
                        },
                    }),
                },
            }
        }),
{
    let ev = ui.handle_event(key);
    match ev {
        None => SearchStep::Pending { render: false },
        Some(PromptUIEvent::PromptUpdated) => {
            view.find_matches_chars(ui.text_input().as_slice(), results);
            SearchStep::Pending { render: true }
        },
        Some(PromptUIEvent::SelectionUpdated) => SearchStep::Pending { render: true },
        Some(PromptUIEvent::CursorUpdated) => SearchStep::Pending { render: true },
        Some(PromptUIEvent::Exit) => SearchStep::Done { selection: None },
        Some(PromptUIEvent::SelectionDone) => {
            let sel = ui.selected_item() as usize;
            if sel < results.len() {
                SearchStep::Done { selection: Some(sel) }
            } else {
                SearchStep::Done { selection: None }
            }
        },
    }
}

} // verus!
