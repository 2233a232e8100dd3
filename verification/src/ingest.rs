//! The ingestion policy: given a freshly observed clipboard entry, ignore
//! it (unchanged at the head, or noise), merge it with an equal entry
//! already in the history (keeping that entry's pin), or insert it as new;
//! then trim the history back to its capacity.

use vstd::prelude::*;

use crate::entry::{entry_eq, ClipboardEntry, EntryModel};
use crate::history::{
    entries_unique, history_wf, insert_after_pins, lead_pins, lemma_boundary,
    lemma_insert_at_lead_keeps_shape, lemma_pinned_prefix, lemma_remove_keeps_shape, pin_count,
    pinned_prefix_ok, trim_history, trimmed_len, HistoryItem, MAX_HISTORY,
};

verus! {

/// Whether a character counts as whitespace when a text clip is trimmed.
pub uninterp spec fn is_white(c: char) -> bool;

/// Relies on char::is_whitespace: whether the character has the Unicode
/// White_Space property, a function of the character alone.
#[verifier::external_body]
pub(crate) fn char_is_whitespace(c: char) -> (r: bool)
    ensures
        r == is_white(c),
{
    c.is_whitespace()
}

/// The characters a noise clip may consist of: ASCII digits and a little
/// punctuation, as found in bare numbers or timestamp fragments.
pub open spec fn is_noise_char(c: char) -> bool {
    ||| (48 <= c as u32 && c as u32 <= 57)
    ||| c == ','
    ||| c == '.'
    ||| c == ':'
    ||| c == ';'
    ||| c == '/'
    ||| c == '\\'
    ||| c == '_'
    ||| c == '-'
    ||| c == ' '
}

fn is_noise_char_exec(c: char) -> (r: bool)
    ensures
        r == is_noise_char(c),
{
    let u = c as u32;
    (48 <= u && u <= 57) || c == ',' || c == '.' || c == ':' || c == ';' || c == '/' || c == '\\'
        || c == '_' || c == '-' || c == ' '
}

/// The characters left after dropping leading whitespace.
pub open spec fn trim_start_spec(s: Seq<char>) -> Seq<char>
    decreases s.len(),
{
    if s.len() > 0 && is_white(s[0]) {
        trim_start_spec(s.drop_first())
    } else {
        s
    }
}

/// The characters left after dropping trailing whitespace.
pub open spec fn trim_end_spec(s: Seq<char>) -> Seq<char>
    decreases s.len(),
{
    if s.len() > 0 && is_white(s.last()) {
        trim_end_spec(s.drop_last())
    } else {
        s
    }
}

/// The characters left after dropping whitespace at both ends.
pub open spec fn trim_spec(s: Seq<char>) -> Seq<char> {
    trim_end_spec(trim_start_spec(s))
}

/// A text clip is noise when, after trimming, it is empty, or it has at
/// most eight characters all of which are digits or light punctuation.
pub open spec fn is_noise(s: Seq<char>) -> bool {
    let t = trim_spec(s);
    ||| t.len() == 0
    ||| (t.len() <= 8 && forall|i: int| 0 <= i < t.len() ==> is_noise_char(t[i]))
}

/// Whether an observed entry is filtered out before it reaches the
/// history; only text entries are ever classified as noise.
pub open spec fn is_noise_entry(e: ClipboardEntry) -> bool {
    match e {
        ClipboardEntry::Text(t) => is_noise(t@),
        ClipboardEntry::Image { .. } => false,
    }
}

/// Whether an entry counts as noise depends only on its model value.
pub proof fn lemma_noise_entry_congruent(a: ClipboardEntry, b: ClipboardEntry)
    requires
        a@ == b@,
    ensures
        is_noise_entry(a) == is_noise_entry(b),
{
    match a {
        ClipboardEntry::Text(t1) => {
            match b {
                ClipboardEntry::Text(t2) => {
                    assert(t1@ == t2@);
                },
                ClipboardEntry::Image { .. } => {},
            }
        },
        ClipboardEntry::Image { .. } => {},
    }
}

/// Classify a text clip as noise: empty after trimming, or at most eight
/// characters that are all digits or light punctuation.
#[verifier::rlimit(50)]
pub fn should_ignore_clipboard_entry(entry: &str) -> (r: bool)
    ensures
        r == is_noise(entry@),
{
    let ghost s = entry@;
    let n = entry.unicode_len();
    let mut lo: usize = 0;
    proof {
        assert(s.skip(0) =~= s);
    }
    while lo < n && char_is_whitespace(entry.get_char(lo))
        invariant
            lo <= n,
            n == s.len(),
            s == entry@,
            trim_start_spec(s) == trim_start_spec(s.skip(lo as int)),
        decreases n - lo,
    {
        proof {
            assert(s.skip(lo as int)[0] == s[lo as int]);
            assert(s.skip(lo as int).drop_first() =~= s.skip(lo as int + 1));
        }
        lo = lo + 1;
    }
    proof {
        if lo == n {
            assert(s.skip(lo as int) =~= Seq::<char>::empty());
        }
        assert(trim_start_spec(s) == s.skip(lo as int));
        assert(s.skip(lo as int) =~= s.subrange(lo as int, n as int));
    }
    let mut hi: usize = n;
    while hi > lo && char_is_whitespace(entry.get_char(hi - 1))
        invariant
            lo <= hi <= n,
            n == s.len(),
            s == entry@,
            trim_spec(s) == trim_end_spec(s.subrange(lo as int, hi as int)),
        decreases hi,
    {
        proof {
            let sub = s.subrange(lo as int, hi as int);
            assert(sub.last() == s[hi - 1]);
            assert(sub.drop_last() =~= s.subrange(lo as int, hi as int - 1));
        }
        hi = hi - 1;
    }
    proof {
        let sub = s.subrange(lo as int, hi as int);
        if hi > lo {
            assert(sub.last() == s[hi - 1]);
        } else {
            assert(sub =~= Seq::<char>::empty());
        }
        assert(trim_spec(s) == sub);
    }
    let ghost t = s.subrange(lo as int, hi as int);
    if hi == lo {
        return true;
    }
    if hi - lo > 8 {
        return false;
    }
    let mut i: usize = lo;
    while i < hi
        invariant
            lo <= i <= hi <= n,
            n == s.len(),
            s == entry@,
            t == s.subrange(lo as int, hi as int),
            t == trim_spec(s),
            forall|j: int| lo <= j < i ==> is_noise_char(s[j]),
        decreases hi - i,
    {
        if !is_noise_char_exec(entry.get_char(i)) {
            proof {
                assert(t[i - lo as int] == s[i as int]);
            }
            return false;
        }
        i = i + 1;
    }
    proof {
        assert forall|k: int| 0 <= k < t.len() implies is_noise_char(t[k]) by {
            assert(t[k] == s[lo + k]);
        }
    }
    true
}

/// The outcome of ingesting one observed entry.
#[derive(PartialEq, Eq, Structural, Clone, Copy, Debug)]
pub enum HistoryAction {
    Ignored,
    Merged,
    Inserted,
}

/// Index of the first item whose entry equals `e`, or -1 when none does.
pub open spec fn find_entry(s: Seq<HistoryItem>, e: EntryModel) -> int
    decreases s.len(),
{
    if s.len() == 0 {
        -1
    } else if s[0].entry@ == e {
        0
    } else {
        let r = find_entry(s.drop_first(), e);
        if r == -1 {
            -1
        } else {
            r + 1
        }
    }
}

/// A scan that saw no match up to `i`, and a match (or the end) at `i`,
/// fixes the value of `find_entry`.
pub proof fn lemma_find_entry_at(s: Seq<HistoryItem>, e: EntryModel, i: int)
    requires
        0 <= i <= s.len(),
        forall|j: int| 0 <= j < i ==> s[j].entry@ != e,
        i == s.len() || s[i].entry@ == e,
    ensures
        find_entry(s, e) == if i == s.len() {
            -1int
        } else {
            i
        },
    decreases s.len(),
{
    if s.len() == 0 {
    } else if i == 0 {
        if s.len() > 0 && s[0].entry@ != e {
            let t = s.drop_first();
            assert(forall|j: int| 0 <= j < t.len() ==> t[j] == s[j + 1]);
            lemma_find_entry_at(t, e, 0);
        }
    } else {
        let t = s.drop_first();
        assert(forall|j: int| 0 <= j < t.len() ==> t[j] == s[j + 1]);
        lemma_find_entry_at(t, e, i - 1);
    }
}

/// `find_entry` never reports anything below -1.
pub proof fn lemma_find_entry_ge(s: Seq<HistoryItem>, e: EntryModel)
    ensures
        find_entry(s, e) >= -1,
    decreases s.len(),
{
    if s.len() > 0 {
        lemma_find_entry_ge(s.drop_first(), e);
    }
}

/// A non-negative `find_entry` result points at the first match.
pub proof fn lemma_find_entry_some(s: Seq<HistoryItem>, e: EntryModel)
    requires
        find_entry(s, e) >= 0,
    ensures
        find_entry(s, e) < s.len(),
        s[find_entry(s, e)].entry@ == e,
        forall|j: int| 0 <= j < find_entry(s, e) ==> s[j].entry@ != e,
    decreases s.len(),
{
    if s.len() == 0 {
    } else if s[0].entry@ == e {
    } else {
        let t = s.drop_first();
        lemma_find_entry_ge(t, e);
        lemma_find_entry_some(t, e);
        assert forall|j: int| 0 <= j < find_entry(s, e) implies s[j].entry@ != e by {
            if j > 0 {
                assert(t[j - 1] == s[j]);
                assert(t[j - 1].entry@ != e);
            }
        }
    }
}

/// When `find_entry` reports no match, no item's entry equals `e`.
pub proof fn lemma_find_entry_none(s: Seq<HistoryItem>, e: EntryModel)
    requires
        find_entry(s, e) == -1,
    ensures
        forall|i: int| 0 <= i < s.len() ==> s[i].entry@ != e,
    decreases s.len(),
{
    if s.len() > 0 {
        let t = s.drop_first();
        lemma_find_entry_ge(t, e);
        lemma_find_entry_none(t, e);
        assert forall|i: int| 0 <= i < s.len() implies s[i].entry@ != e by {
            if i > 0 {
                assert(t[i - 1] == s[i]);
            }
        }
    }
}

/// First position holding an entry equal to `candidate`, if any.
fn position_of_entry(history: &Vec<HistoryItem>, candidate: &ClipboardEntry) -> (r: Option<usize>)
    ensures
        match r {
            Some(idx) => find_entry(history@, candidate@) == idx && idx < history@.len()
                && history@[idx as int].entry@ == candidate@,
            None => find_entry(history@, candidate@) == -1,
        },
{
    let ghost s = history@;
    let mut i: usize = 0;
    while i < history.len()
        invariant
            i <= s.len(),
            history@ == s,
            forall|j: int| 0 <= j < i ==> s[j].entry@ != candidate@,
        decreases s.len() - i,
    {
        if entry_eq(&history[i].entry, candidate) {
            proof {
                lemma_find_entry_at(s, candidate@, i as int);
            }
            return Some(i);
        }
        i = i + 1;
    }
    proof {
        lemma_find_entry_at(s, candidate@, s.len() as int);
    }
    None
}

/// What ingesting `entry` does to the history: nothing when the head
/// already holds it or it is noise; otherwise an equal entry elsewhere in
/// the history is merged to the front of its partition, keeping its pin,
/// and a new entry is inserted unpinned after the pins, with the history
/// then trimmed to its capacity.
pub open spec fn ingest_post(
    pre: Seq<HistoryItem>,
    entry: ClipboardEntry,
    post: Seq<HistoryItem>,
    action: HistoryAction,
) -> bool {
    if pre.len() > 0 && pre[0].entry@ == entry@ {
        action == HistoryAction::Ignored && post == pre
    } else if is_noise_entry(entry) {
        action == HistoryAction::Ignored && post == pre
    } else if find_entry(pre, entry@) >= 0 {
        let idx = find_entry(pre, entry@);
        let removed = pre.remove(idx);
        let item = HistoryItem { entry, pinned: pre[idx].pinned };
        action == HistoryAction::Merged && post == removed.insert(
            lead_pins(removed) as int,
            item,
        )
    } else {
        let ins = pre.insert(lead_pins(pre) as int, HistoryItem { entry, pinned: false });
        action == HistoryAction::Inserted && post == ins.take(trimmed_len(ins) as int)
    }
}

/// Integrate one observed entry into the history.
pub fn ingest(history: &mut Vec<HistoryItem>, entry: ClipboardEntry) -> (action: HistoryAction)
    requires
        history_wf(old(history)@),
    ensures
        history_wf(final(history)@),
        ingest_post(old(history)@, entry, final(history)@, action),
{
    let ghost s = old(history)@;
    if history.len() > 0 {
        if entry_eq(&history[0].entry, &entry) {
            return HistoryAction::Ignored;
        }
    }
    let noise = match &entry {
        ClipboardEntry::Text(text) => should_ignore_clipboard_entry(text.as_str()),
        ClipboardEntry::Image { .. } => false,
    };
    if noise {
        return HistoryAction::Ignored;
    }
    match position_of_entry(history, &entry) {
        Some(idx) => {
            proof {
                lemma_remove_keeps_shape(s, idx as int);
            }
            let ghost removed = s.remove(idx as int);
            let found = history.remove(idx);
            let pinned = found.pinned;
            proof {
                lemma_insert_at_lead_keeps_shape(removed, HistoryItem { entry, pinned });
                assert forall|k: int| 0 <= k < removed.len() implies removed[k].entry@
                    != entry@ by {
                    if k < idx {
                        assert(removed[k] == s[k]);
                    } else {
                        assert(removed[k] == s[k + 1]);
                    }
                }
            }
            insert_after_pins(history, HistoryItem { entry, pinned });
            let ghost merged = history@;
            trim_history(history);
            proof {
                assert(merged.len() == s.len() <= MAX_HISTORY);
                assert(trimmed_len(merged) == merged.len());
                assert(merged.take(merged.len() as int) =~= merged);
            }
            HistoryAction::Merged
        },
        None => {
            proof {
                lemma_find_entry_none(s, entry@);
                lemma_insert_at_lead_keeps_shape(s, HistoryItem { entry, pinned: false });
            }
            insert_after_pins(history, HistoryItem { entry, pinned: false });
            let ghost ins = history@;
            trim_history(history);
            proof {
                lemma_pinned_prefix(ins);
                let k = trimmed_len(ins) as int;
                assert(pin_count(ins) <= k <= ins.len());
                let cut = ins.take(k);
                assert forall|i: int| 0 <= i < cut.len() implies (cut[i].pinned <==> i < lead_pins(
                    ins,
                )) by {
                    assert(cut[i] == ins[i]);
                }
                lemma_boundary(cut, lead_pins(ins));
                assert forall|i: int, j: int| 0 <= i < j < cut.len() implies cut[i].entry@
                    != cut[j].entry@ by {
                    assert(cut[i] == ins[i]);
                    assert(cut[j] == ins[j]);
                }
            }
            HistoryAction::Inserted
        },
    }
}

} // verus!
