//! The history store: an ordered sequence of history items, newest first,
//! in which all pinned items form a contiguous prefix. Pinned items are
//! protected from eviction; trimming removes the oldest unpinned items.

use vstd::prelude::*;

use crate::entry::ClipboardEntry;

verus! {

/// Largest number of items the history holds; trimming enforces it as long
/// as an unpinned item remains.
pub const MAX_HISTORY: usize = 30;

/// Largest number of items that can be pinned at once.
pub const MAX_PINNED: usize = 5;

/// An entry as stored in the history, together with its pin flag.
pub struct HistoryItem {
    pub entry: ClipboardEntry,
    pub pinned: bool,
}

/// All pinned items stand before all unpinned ones.
pub open spec fn pinned_prefix_ok(s: Seq<HistoryItem>) -> bool {
    forall|i: int, j: int| 0 <= i < j < s.len() && s[j].pinned ==> s[i].pinned
}

/// How many items of the whole sequence are pinned.
pub open spec fn pin_count(s: Seq<HistoryItem>) -> nat
    decreases s.len(),
{
    if s.len() == 0 {
        0
    } else {
        (if s[0].pinned {
            1nat
        } else {
            0nat
        }) + pin_count(s.drop_first())
    }
}

/// Length of the leading run of pinned items: the index at which a new
/// item is placed so that it lands right after the pinned prefix.
pub open spec fn lead_pins(s: Seq<HistoryItem>) -> nat
    decreases s.len(),
{
    if s.len() == 0 {
        0
    } else if s[0].pinned {
        1 + lead_pins(s.drop_first())
    } else {
        0
    }
}

/// No two items hold entries of equal value.
pub open spec fn entries_unique(s: Seq<HistoryItem>) -> bool {
    forall|i: int, j: int| 0 <= i < j < s.len() ==> s[i].entry@ != s[j].entry@
}

/// The store's invariant: contiguous pinned prefix, pin limit, capacity,
/// and value-level deduplication.
pub open spec fn history_wf(s: Seq<HistoryItem>) -> bool {
    &&& pinned_prefix_ok(s)
    &&& pin_count(s) <= MAX_PINNED
    &&& s.len() <= MAX_HISTORY
    &&& entries_unique(s)
}

/// Length the history has after trimming: unchanged when within capacity,
/// otherwise cut to the capacity, except that pinned items are never cut.
pub open spec fn trimmed_len(s: Seq<HistoryItem>) -> nat {
    if s.len() <= MAX_HISTORY {
        s.len()
    } else if pin_count(s) > MAX_HISTORY {
        pin_count(s)
    } else {
        MAX_HISTORY as nat
    }
}

/// Under the pinned-prefix invariant, an item is pinned exactly when it
/// lies below the leading-run boundary, and that boundary equals the pin
/// count.
pub proof fn lemma_pinned_prefix(s: Seq<HistoryItem>)
    requires
        pinned_prefix_ok(s),
    ensures
        lead_pins(s) <= s.len(),
        pin_count(s) == lead_pins(s),
        forall|i: int| 0 <= i < s.len() ==> (s[i].pinned <==> i < lead_pins(s)),
    decreases s.len(),
{
    if s.len() == 0 {
    } else {
        let t = s.drop_first();
        assert forall|i: int, j: int| 0 <= i < j < t.len() && t[j].pinned implies t[i].pinned by {
            assert(t[j] == s[j + 1]);
            assert(t[i] == s[i + 1]);
        }
        lemma_pinned_prefix(t);
        if s[0].pinned {
            assert(forall|i: int| 1 <= i < s.len() ==> s[i] == t[i - 1]);
        } else {
            assert forall|i: int| 0 <= i < s.len() implies !s[i].pinned by {
                if i > 0 && s[i].pinned {
                    assert(s[0].pinned);
                }
            }
            assert forall|i: int| 0 <= i < t.len() implies !t[i].pinned by {
                assert(t[i] == s[i + 1]);
            }
            assert(lead_pins(t) == 0) by {
                if t.len() > 0 {
                    assert(!t[0].pinned);
                }
            }
            assert(pin_count(s) == pin_count(t));
        }
    }
}

/// A sequence whose pinned items are exactly those below `k` has leading
/// run and pin count both equal to `k`.
pub proof fn lemma_boundary(s: Seq<HistoryItem>, k: nat)
    requires
        k <= s.len(),
        forall|i: int| 0 <= i < s.len() ==> (s[i].pinned <==> i < k),
    ensures
        pinned_prefix_ok(s),
        lead_pins(s) == k,
        pin_count(s) == k,
{
    assert(pinned_prefix_ok(s));
    lemma_pinned_prefix(s);
    if lead_pins(s) < k {
        assert(s[lead_pins(s) as int].pinned);
    }
    if k < lead_pins(s) {
        assert(s[k as int].pinned);
    }
}

/// A run of `k` leading pinned items bounded by an unpinned item (or the
/// end) pins the leading-run length down to `k`.
pub proof fn lemma_lead_pins_from_run(s: Seq<HistoryItem>, k: nat)
    requires
        k <= s.len(),
        forall|j: int| 0 <= j < k ==> s[j].pinned,
        k == s.len() || !s[k as int].pinned,
    ensures
        lead_pins(s) == k,
    decreases s.len(),
{
    if k == 0 {
        if s.len() > 0 {
            assert(!s[0].pinned);
        }
    } else {
        assert(s[0].pinned);
        let t = s.drop_first();
        assert(forall|j: int| 0 <= j < t.len() ==> t[j] == s[j + 1]);
        lemma_lead_pins_from_run(t, (k - 1) as nat);
    }
}

/// The number of pinned items in the history.
pub fn pinned_count(history: &Vec<HistoryItem>) -> (n: usize)
    ensures
        n == pin_count(history@),
{
    let ghost s = history@;
    proof {
        assert(s.skip(0) =~= s);
    }
    let mut n: usize = 0;
    let mut i: usize = 0;
    while i < history.len()
        invariant
            i <= s.len(),
            history@ == s,
            n <= i,
            n + pin_count(s.skip(i as int)) == pin_count(s),
        decreases s.len() - i,
    {
        proof {
            assert(s.skip(i as int).len() > 0);
            assert(s.skip(i as int)[0] == s[i as int]);
            assert(s.skip(i as int).drop_first() =~= s.skip(i as int + 1));
        }
        if history[i].pinned {
            n = n + 1;
        }
        i = i + 1;
    }
    proof {
        assert(s.skip(s.len() as int) =~= Seq::<HistoryItem>::empty());
    }
    n
}

/// Insert `item` directly after the pinned prefix, keeping the prefix
/// invariant by construction.
pub fn insert_after_pins(history: &mut Vec<HistoryItem>, item: HistoryItem)
    ensures
        final(history)@ == old(history)@.insert(lead_pins(old(history)@) as int, item),
{
    let ghost s = old(history)@;
    let mut pos: usize = 0;
    while pos < history.len() && history[pos].pinned
        invariant
            pos <= s.len(),
            history@ == s,
            forall|j: int| 0 <= j < pos ==> s[j].pinned,
        decreases s.len() - pos,
    {
        pos = pos + 1;
    }
    proof {
        lemma_lead_pins_from_run(s, pos as nat);
    }
    history.insert(pos, item);
}

/// Removing one item keeps the pinned prefix contiguous and deduplicated,
/// and adjusts the counts; the surviving items read as before, shifted.
pub proof fn lemma_remove_keeps_shape(s: Seq<HistoryItem>, index: int)
    requires
        0 <= index < s.len(),
        pinned_prefix_ok(s),
    ensures
        s.remove(index).len() == s.len() - 1,
        pinned_prefix_ok(s.remove(index)),
        lead_pins(s.remove(index)) == if index < lead_pins(s) {
            lead_pins(s) - 1
        } else {
            lead_pins(s) as int
        },
        pin_count(s.remove(index)) == if s[index].pinned {
            pin_count(s) - 1
        } else {
            pin_count(s) as int
        },
        forall|k: int|
            0 <= k < s.len() - 1 ==> s.remove(index)[k] == (if k < index {
                s[k]
            } else {
                s[k + 1]
            }),
        entries_unique(s) ==> entries_unique(s.remove(index)),
{
    lemma_pinned_prefix(s);
    s.remove_ensures(index);
    let t = s.remove(index);
    let k: nat = if index < lead_pins(s) {
        (lead_pins(s) - 1) as nat
    } else {
        lead_pins(s)
    };
    assert forall|i: int| 0 <= i < t.len() implies (t[i].pinned <==> i < k) by {
        if i < index {
            assert(t[i] == s[i]);
        } else {
            assert(t[i] == s[i + 1]);
        }
    }
    lemma_boundary(t, k);
    if entries_unique(s) {
        assert forall|i: int, j: int| 0 <= i < j < t.len() implies t[i].entry@ != t[j].entry@ by {
            let i0: int = if i < index {
                i
            } else {
                i + 1
            };
            let j0: int = if j < index {
                j
            } else {
                j + 1
            };
            assert(t[i] == s[i0]);
            assert(t[j] == s[j0]);
        }
    }
}

/// Inserting an item right after the pinned prefix keeps the prefix
/// contiguous; the counts grow exactly when the new item is pinned, and
/// deduplication survives when the new entry is absent.
pub proof fn lemma_insert_at_lead_keeps_shape(s: Seq<HistoryItem>, item: HistoryItem)
    requires
        pinned_prefix_ok(s),
    ensures
        s.insert(lead_pins(s) as int, item).len() == s.len() + 1,
        pinned_prefix_ok(s.insert(lead_pins(s) as int, item)),
        lead_pins(s.insert(lead_pins(s) as int, item)) == lead_pins(s) + (if item.pinned {
            1int
        } else {
            0int
        }),
        pin_count(s.insert(lead_pins(s) as int, item)) == pin_count(s) + (if item.pinned {
            1int
        } else {
            0int
        }),
        (entries_unique(s) && (forall|k: int|
            0 <= k < s.len() ==> s[k].entry@ != item.entry@)) ==> entries_unique(
            s.insert(lead_pins(s) as int, item),
        ),
{
    lemma_pinned_prefix(s);
    let p = lead_pins(s) as int;
    s.insert_ensures(p, item);
    let t = s.insert(p, item);
    let k: nat = if item.pinned {
        lead_pins(s) + 1
    } else {
        lead_pins(s)
    };
    assert forall|i: int| 0 <= i < t.len() implies (t[i].pinned <==> i < k) by {
        if i < p {
            assert(t[i] == s[i]);
        } else if i == p {
            assert(t[i] == item);
        } else {
            assert(t[i] == s[i - 1]);
        }
    }
    lemma_boundary(t, k);
    if entries_unique(s) && (forall|j: int| 0 <= j < s.len() ==> s[j].entry@ != item.entry@) {
        assert forall|i: int, j: int| 0 <= i < j < t.len() implies t[i].entry@ != t[j].entry@ by {
            if i != p && j != p {
                let i0: int = if i < p {
                    i
                } else {
                    i - 1
                };
                let j0: int = if j < p {
                    j
                } else {
                    j - 1
                };
                assert(t[i] == s[i0]);
                assert(t[j] == s[j0]);
            }
        }
    }
}

/// Evict the oldest unpinned items until the history fits its capacity.
/// Under the pinned-prefix invariant the oldest unpinned item is the last
/// one, so trimming cuts from the back and never touches a pinned item;
/// when only pinned items remain, the overflow is accepted as it is.
pub fn trim_history(history: &mut Vec<HistoryItem>)
    requires
        pinned_prefix_ok(old(history)@),
    ensures
        final(history)@ == old(history)@.take(trimmed_len(old(history)@) as int),
        pinned_prefix_ok(final(history)@),
        forall|i: int|
            trimmed_len(old(history)@) <= i < old(history)@.len() ==> !old(history)@[i].pinned,
{
    let ghost s = old(history)@;
    proof {
        lemma_pinned_prefix(s);
        assert(s.take(s.len() as int) =~= s);
    }
    let mut done: bool = false;
    while !done && history.len() > MAX_HISTORY
        invariant
            pinned_prefix_ok(s),
            pin_count(s) == lead_pins(s),
            lead_pins(s) <= s.len(),
            forall|i: int| 0 <= i < s.len() ==> (s[i].pinned <==> i < lead_pins(s)),
            history@.len() <= s.len(),
            history@ == s.take(history@.len() as int),
            history@.len() >= trimmed_len(s),
            done ==> history@.len() == trimmed_len(s),
        decreases history@.len() + (if done {
            0int
        } else {
            1int
        }),
    {
        let last = history.len() - 1;
        if history[last].pinned {
            proof {
                assert(history@[last as int] == s[last as int]);
                assert((last as int) < lead_pins(s));
                assert(history@.len() <= pin_count(s));
                assert(s.len() > MAX_HISTORY);
                assert(trimmed_len(s) == pin_count(s));
            }
            done = true;
        } else {
            proof {
                assert(history@[last as int] == s[last as int]);
                assert((last as int) >= lead_pins(s));
                assert(history@.len() > pin_count(s));
                assert(s.len() > MAX_HISTORY);
                assert(s.take(history@.len() as int).drop_last() =~= s.take(last as int));
            }
            let _ = history.pop();
        }
    }
    proof {
        if !done {
            if s.len() <= MAX_HISTORY {
                assert(trimmed_len(s) == s.len());
            }
            assert(history@.len() == trimmed_len(s));
        }
        assert forall|i: int| trimmed_len(s) <= i < s.len() implies !s[i].pinned by {
            assert(i >= pin_count(s));
        }
        let t = s.take(trimmed_len(s) as int);
        assert forall|i: int, j: int| 0 <= i < j < t.len() && t[j].pinned implies t[i].pinned by {
            assert(t[i] == s[i]);
            assert(t[j] == s[j]);
        }
    }
}

/// Remove the item at `index`; out-of-range indices are ignored.
pub fn remove(history: &mut Vec<HistoryItem>, index: usize)
    ensures
        index < old(history)@.len() ==> final(history)@ == old(history)@.remove(index as int),
        index >= old(history)@.len() ==> final(history)@ == old(history)@,
{
    if index < history.len() {
        let _ = history.remove(index);
    }
}

/// Read-only lookup of the item at `index`.
pub fn get(history: &Vec<HistoryItem>, index: usize) -> (r: Option<&HistoryItem>)
    ensures
        match r {
            Some(item) => index < history@.len() && *item == history@[index as int],
            None => index >= history@.len(),
        },
{
    if index < history.len() {
        Some(&history[index])
    } else {
        None
    }
}

/// What toggling the pin of the item at `index` does to the history:
/// out-of-range indices change nothing; a pinned item is unpinned and moved
/// to the front of the unpinned partition; an unpinned item is pinned and
/// moved to the back of the pinned partition, unless the pin limit is
/// already reached, in which case the history is left exactly as it was.
pub open spec fn toggle_pin_post(
    pre: Seq<HistoryItem>,
    index: int,
    post: Seq<HistoryItem>,
) -> bool {
    if !(0 <= index < pre.len()) {
        post == pre
    } else {
        let removed = pre.remove(index);
        if pre[index].pinned {
            post == removed.insert(
                lead_pins(removed) as int,
                HistoryItem { entry: pre[index].entry, pinned: false },
            )
        } else if pin_count(removed) >= MAX_PINNED {
            post == pre
        } else {
            post == removed.insert(
                lead_pins(removed) as int,
                HistoryItem { entry: pre[index].entry, pinned: true },
            )
        }
    }
}

/// Toggle the pin flag of the item at `index`, keeping the pinned items a
/// contiguous prefix and refusing a pin beyond the pin limit.
pub fn toggle_pin(history: &mut Vec<HistoryItem>, index: usize)
    requires
        pinned_prefix_ok(old(history)@),
    ensures
        toggle_pin_post(old(history)@, index as int, final(history)@),
        pinned_prefix_ok(final(history)@),
        final(history)@.len() == old(history)@.len(),
        pin_count(old(history)@) <= MAX_PINNED ==> pin_count(final(history)@) <= MAX_PINNED,
        entries_unique(old(history)@) ==> entries_unique(final(history)@),
{
    let ghost s = old(history)@;
    if index >= history.len() {
        return ;
    }
    proof {
        lemma_pinned_prefix(s);
        lemma_remove_keeps_shape(s, index as int);
    }
    let ghost removed = s.remove(index as int);
    let mut item = history.remove(index);
    if item.pinned {
        item.pinned = false;
        insert_after_pins(history, item);
        proof {
            lemma_insert_at_lead_keeps_shape(removed, item);
            if entries_unique(s) {
                assert forall|k: int| 0 <= k < removed.len() implies removed[k].entry@
                    != s[index as int].entry@ by {
                    if k < index {
                        assert(removed[k] == s[k]);
                    } else {
                        assert(removed[k] == s[k + 1]);
                    }
                }
            }
        }
    } else if pinned_count(history) >= MAX_PINNED {
        // Pin limit reached; keep the item where it was.
        history.insert(index, item);
        proof {
            s.remove_ensures(index as int);
            removed.insert_ensures(index as int, s[index as int]);
            assert(final(history)@ =~= s);
        }
    } else {
        item.pinned = true;
        insert_after_pins(history, item);
        proof {
            lemma_insert_at_lead_keeps_shape(removed, item);
            if entries_unique(s) {
                assert forall|k: int| 0 <= k < removed.len() implies removed[k].entry@
                    != s[index as int].entry@ by {
                    if k < index {
                        assert(removed[k] == s[k]);
                    } else {
                        assert(removed[k] == s[k + 1]);
                    }
                }
            }
        }
    }
}

} // verus!
