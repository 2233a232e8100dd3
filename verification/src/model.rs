//! The application model and the single-writer update function: every
//! user- or poll-driven event mutates the history through one entry point,
//! which preserves the store's invariant and reports the clipboard write a
//! copy request asks for.

use vstd::prelude::*;

use crate::entry::{clone_entry, ClipboardEntry};
use crate::history::{
    get, history_wf, lemma_remove_keeps_shape, remove, toggle_pin, toggle_pin_post, HistoryItem,
};
use crate::ingest::{ingest, ingest_post, HistoryAction};

verus! {

/// The state owned by the single-writer event loop: the clipboard history.
pub struct AppModel {
    pub history: Vec<HistoryItem>,
}

impl View for AppModel {
    type V = Seq<HistoryItem>;

    open spec fn view(&self) -> Seq<HistoryItem> {
        self.history@
    }
}

impl AppModel {
    /// An empty history; trivially well formed.
    pub fn new() -> (r: AppModel)
        ensures
            r@ == Seq::<HistoryItem>::empty(),
            history_wf(r@),
    {
        AppModel { history: Vec::new() }
    }
}

/// The events the core reacts to. Window management stays with the shell
/// around this crate; it never touches the history.
pub enum Message {
    ClipboardChanged(ClipboardEntry),
    TogglePin(usize),
    CopyFromHistory(usize),
    RemoveHistory(usize),
}

/// Apply one event to the model. The returned entry, present exactly for
/// an in-range copy request, is what the caller must write back to the
/// system clipboard; every other event returns nothing.
pub fn update(app: &mut AppModel, message: Message) -> (copy_request: Option<ClipboardEntry>)
    requires
        history_wf(old(app)@),
    ensures
        history_wf(final(app)@),
        match message {
            Message::ClipboardChanged(entry) => copy_request is None && (exists|a: HistoryAction|
                ingest_post(old(app)@, entry, final(app)@, a)),
            Message::TogglePin(index) => copy_request is None && toggle_pin_post(
                old(app)@,
                index as int,
                final(app)@,
            ),
            Message::CopyFromHistory(index) => final(app)@ == old(app)@ && match copy_request {
                Some(e) => index < old(app)@.len() && e@ == old(app)@[index as int].entry@,
                None => index >= old(app)@.len(),
            },
            Message::RemoveHistory(index) => copy_request is None && if index < old(app)@.len() {
                final(app)@ == old(app)@.remove(index as int)
            } else {
                final(app)@ == old(app)@
            },
        },
{
    let ghost s = old(app)@;
    match message {
        Message::ClipboardChanged(entry) => {
            let action = ingest(&mut app.history, entry);
            proof {
                assert(ingest_post(s, entry, app.history@, action));
            }
            None
        },
        Message::TogglePin(index) => {
            toggle_pin(&mut app.history, index);
            None
        },
        Message::CopyFromHistory(index) => {
            match get(&app.history, index) {
                Some(item) => Some(clone_entry(&item.entry)),
                None => None,
            }
        },
        Message::RemoveHistory(index) => {
            remove(&mut app.history, index);
            proof {
                if (index as int) < s.len() {
                    lemma_remove_keeps_shape(s, index as int);
                }
            }
            None
        },
    }
}

} // verus!
