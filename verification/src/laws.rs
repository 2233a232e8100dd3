//! The guarantees the history gives across whole operations: capacity is
//! kept, pinned items survive trimming, the pin limit rejects without a
//! trace, merging keeps a pin, repeated observations collapse, eviction
//! takes the oldest unpinned item, and a pin toggled twice comes back to
//! the front of the unpinned partition.

use vstd::prelude::*;

use crate::entry::ClipboardEntry;
use crate::history::{
    history_wf, lead_pins, lemma_boundary, lemma_insert_at_lead_keeps_shape,
    lemma_pinned_prefix, lemma_remove_keeps_shape, pin_count, pinned_prefix_ok,
    toggle_pin_post, trimmed_len, HistoryItem, MAX_HISTORY, MAX_PINNED,
};
use crate::ingest::{
    find_entry, ingest_post, is_noise_entry, lemma_find_entry_at, lemma_find_entry_ge, lemma_find_entry_none,
    lemma_find_entry_some, lemma_noise_entry_congruent, HistoryAction,
};

verus! {

/// Two histories that display the same: equal length and, item by item,
/// the same entry value and pin flag.
pub open spec fn same_content(a: Seq<HistoryItem>, b: Seq<HistoryItem>) -> bool {
    &&& a.len() == b.len()
    &&& forall|i: int|
        0 <= i < a.len() ==> a[i].entry@ == b[i].entry@ && a[i].pinned == b[i].pinned
}

/// Law: ingesting into a well-formed history never leaves it above its
/// capacity.
pub proof fn lemma_ingest_capacity(
    pre: Seq<HistoryItem>,
    entry: ClipboardEntry,
    post: Seq<HistoryItem>,
    action: HistoryAction,
)
    requires
        history_wf(pre),
        ingest_post(pre, entry, post, action),
    ensures
        post.len() <= MAX_HISTORY,
{
    if pre.len() > 0 && pre[0].entry@ == entry@ {
    } else if is_noise_entry(entry) {
    } else if find_entry(pre, entry@) >= 0 {
        let idx = find_entry(pre, entry@);
        lemma_find_entry_some(pre, entry@);
        lemma_remove_keeps_shape(pre, idx);
        lemma_insert_at_lead_keeps_shape(
            pre.remove(idx),
            HistoryItem { entry, pinned: pre[idx].pinned },
        );
    } else {
        let item = HistoryItem { entry, pinned: false };
        lemma_insert_at_lead_keeps_shape(pre, item);
    }
}

/// Law: trimming never removes a pinned item; every pinned item keeps its
/// position.
pub proof fn lemma_trim_never_evicts_pinned(s: Seq<HistoryItem>)
    requires
        pinned_prefix_ok(s),
    ensures
        forall|i: int|
            0 <= i < s.len() && s[i].pinned ==> i < trimmed_len(s) && s.take(
                trimmed_len(s) as int,
            )[i] == s[i],
{
    lemma_pinned_prefix(s);
}

/// Law: under the pinned-prefix invariant — which every mutating operation
/// of the store ensures — the pinned items are exactly those at indices
/// `[0, pin_count)`.
pub proof fn lemma_pin_positions(s: Seq<HistoryItem>)
    requires
        pinned_prefix_ok(s),
    ensures
        forall|i: int| 0 <= i < s.len() ==> (s[i].pinned <==> i < pin_count(s)),
{
    lemma_pinned_prefix(s);
}

/// Law: when the pin limit is already reached, toggling an unpinned item
/// leaves the history exactly as it was, order and flags included.
pub proof fn lemma_pin_limit_rejected(pre: Seq<HistoryItem>, index: int, post: Seq<HistoryItem>)
    requires
        history_wf(pre),
        0 <= index < pre.len(),
        !pre[index].pinned,
        pin_count(pre) == MAX_PINNED,
        toggle_pin_post(pre, index, post),
    ensures
        post == pre,
{
    lemma_remove_keeps_shape(pre, index);
}

/// Law: ingesting a distinct, non-noise entry into a full history with no
/// pins inserts it at the front and evicts exactly the oldest item.
pub proof fn lemma_eviction_order(
    pre: Seq<HistoryItem>,
    entry: ClipboardEntry,
    post: Seq<HistoryItem>,
    action: HistoryAction,
)
    requires
        history_wf(pre),
        pre.len() == MAX_HISTORY,
        pin_count(pre) == 0,
        !is_noise_entry(entry),
        forall|i: int| 0 <= i < pre.len() ==> pre[i].entry@ != entry@,
        ingest_post(pre, entry, post, action),
    ensures
        action == HistoryAction::Inserted,
        post == seq![HistoryItem { entry, pinned: false }] + pre.drop_last(),
{
    lemma_pinned_prefix(pre);
    lemma_find_entry_at(pre, entry@, pre.len() as int);
    let item = HistoryItem { entry, pinned: false };
    lemma_insert_at_lead_keeps_shape(pre, item);
    let ins = pre.insert(0, item);
    pre.insert_ensures(0, item);
    assert(trimmed_len(ins) == MAX_HISTORY);
    assert(post =~= seq![item] + pre.drop_last()) by {
        assert forall|i: int| 0 <= i < MAX_HISTORY implies post[i] == (seq![item]
            + pre.drop_last())[i] by {
            assert(post[i] == ins[i]);
            if i > 0 {
                assert(ins[i] == pre[i - 1]);
            }
        }
    }
}

/// Law: pinning an unpinned item (under the limit) and toggling it again
/// right away returns it, unpinned, to the front of the unpinned
/// partition, with everything else in its old order.
pub proof fn lemma_toggle_round_trip(
    pre: Seq<HistoryItem>,
    index: int,
    mid: Seq<HistoryItem>,
    post: Seq<HistoryItem>,
)
    requires
        history_wf(pre),
        0 <= index < pre.len(),
        !pre[index].pinned,
        pin_count(pre) < MAX_PINNED,
        toggle_pin_post(pre, index, mid),
        toggle_pin_post(mid, lead_pins(pre) as int, post),
    ensures
        post == pre.remove(index).insert(
            lead_pins(pre) as int,
            HistoryItem { entry: pre[index].entry, pinned: false },
        ),
{
    lemma_pinned_prefix(pre);
    lemma_remove_keeps_shape(pre, index);
    let removed = pre.remove(index);
    let p = lead_pins(pre) as int;
    assert(lead_pins(removed) == p);
    let item_p = HistoryItem { entry: pre[index].entry, pinned: true };
    lemma_insert_at_lead_keeps_shape(removed, item_p);
    removed.insert_ensures(p, item_p);
    assert(mid == removed.insert(p, item_p));
    assert(mid[p] == item_p);
    assert(0 <= p < mid.len());
    mid.remove_ensures(p);
    let mid2 = mid.remove(p);
    assert(mid2 =~= removed);
    assert(post == mid2.insert(
        lead_pins(mid2) as int,
        HistoryItem { entry: mid[p].entry, pinned: false },
    ));
}

/// Law: merging an observation of an entry already in the history keeps
/// that entry's pin flag and leaves exactly one item with that entry, at
/// the boundary of its partition.
pub proof fn lemma_merge_preserves_pin(
    pre: Seq<HistoryItem>,
    entry: ClipboardEntry,
    post: Seq<HistoryItem>,
)
    requires
        history_wf(pre),
        ingest_post(pre, entry, post, HistoryAction::Merged),
    ensures
        post.len() == pre.len(),
        ({
            let idx = find_entry(pre, entry@);
            let p: int = if pre[idx].pinned {
                lead_pins(pre) - 1
            } else {
                lead_pins(pre) as int
            };
            &&& 0 <= p < post.len()
            &&& post[p].entry@ == entry@
            &&& post[p].pinned == pre[idx].pinned
            &&& forall|i: int| 0 <= i < post.len() && i != p ==> post[i].entry@ != entry@
        }),
{
    let e = entry@;
    let idx = find_entry(pre, e);
    lemma_find_entry_some(pre, e);
    lemma_pinned_prefix(pre);
    lemma_remove_keeps_shape(pre, idx);
    let removed = pre.remove(idx);
    let item = HistoryItem { entry, pinned: pre[idx].pinned };
    let p = lead_pins(removed) as int;
    lemma_pinned_prefix(removed);
    lemma_insert_at_lead_keeps_shape(removed, item);
    removed.insert_ensures(p, item);
    assert(post == removed.insert(p, item));
    assert forall|k: int| 0 <= k < removed.len() implies removed[k].entry@ != e by {
        if k < idx {
            assert(removed[k] == pre[k]);
        } else {
            assert(removed[k] == pre[k + 1]);
        }
    }
    assert forall|i: int| 0 <= i < post.len() && i != p implies post[i].entry@ != e by {
        if i < p {
            assert(post[i] == removed[i]);
        } else {
            assert(post[i] == removed[i - 1]);
        }
    }
}

/// Law: observing the same clipboard content twice in a row changes the
/// history only once; the second ingestion leaves the same entries with
/// the same pin flags in the same order.
pub proof fn lemma_repeat_ingest_unchanged(
    pre: Seq<HistoryItem>,
    first: ClipboardEntry,
    second: ClipboardEntry,
    mid: Seq<HistoryItem>,
    post: Seq<HistoryItem>,
    a1: HistoryAction,
    a2: HistoryAction,
)
    requires
        history_wf(pre),
        first@ == second@,
        ingest_post(pre, first, mid, a1),
        ingest_post(mid, second, post, a2),
    ensures
        same_content(post, mid),
{
    let e = first@;
    lemma_noise_entry_congruent(first, second);
    if pre.len() > 0 && pre[0].entry@ == e {
        assert(post == mid);
    } else if is_noise_entry(first) {
        assert(mid == pre);
        if !(mid.len() > 0 && mid[0].entry@ == e) {
            assert(is_noise_entry(second));
        }
        assert(post == mid);
    } else if find_entry(pre, e) >= 0 {
        let idx = find_entry(pre, e);
        lemma_find_entry_some(pre, e);
        lemma_pinned_prefix(pre);
        lemma_remove_keeps_shape(pre, idx);
        let removed = pre.remove(idx);
        let item = HistoryItem { entry: first, pinned: pre[idx].pinned };
        let p = lead_pins(removed) as int;
        lemma_pinned_prefix(removed);
        lemma_insert_at_lead_keeps_shape(removed, item);
        removed.insert_ensures(p, item);
        assert(mid == removed.insert(p, item));
        assert(mid[p] == item);
        assert forall|k: int| 0 <= k < removed.len() implies removed[k].entry@ != e by {
            if k < idx {
                assert(removed[k] == pre[k]);
            } else {
                assert(removed[k] == pre[k + 1]);
            }
        }
        if mid.len() > 0 && mid[0].entry@ == e && p == 0 {
            assert(post == mid);
        } else {
            assert forall|j: int| 0 <= j < p implies mid[j].entry@ != e by {
                assert(mid[j] == removed[j]);
            }
            lemma_find_entry_at(mid, e, p);
            let removed2 = mid.remove(p);
            mid.remove_ensures(p);
            assert(removed2 =~= removed);
            let item2 = HistoryItem { entry: second, pinned: mid[p].pinned };
            assert(post == removed.insert(p, item2));
            removed.insert_ensures(p, item2);
            assert forall|i: int| 0 <= i < post.len() implies post[i].entry@ == mid[i].entry@
                && post[i].pinned == mid[i].pinned by {
                if i < p {
                    assert(post[i] == removed[i]);
                    assert(mid[i] == removed[i]);
                } else if i > p {
                    assert(post[i] == removed[i - 1]);
                    assert(mid[i] == removed[i - 1]);
                }
            }
        }
    } else {
        lemma_find_entry_ge(pre, e);
        lemma_find_entry_none(pre, e);
        lemma_pinned_prefix(pre);
        let item = HistoryItem { entry: first, pinned: false };
        let lead = lead_pins(pre) as int;
        lemma_insert_at_lead_keeps_shape(pre, item);
        let ins = pre.insert(lead, item);
        pre.insert_ensures(lead, item);
        assert(mid == ins.take(trimmed_len(ins) as int));
        assert(lead < trimmed_len(ins));
        assert(mid[lead] == item);
        if mid.len() > 0 && mid[0].entry@ == e && lead == 0 {
            assert(post == mid);
        } else {
            assert(lead > 0);
            assert forall|j: int| 0 <= j < lead implies mid[j].entry@ != e by {
                assert(mid[j] == ins[j]);
                assert(ins[j] == pre[j]);
            }
            lemma_find_entry_at(mid, e, lead);
            assert forall|i: int| 0 <= i < mid.len() implies (mid[i].pinned <==> i < lead) by {
                assert(mid[i] == ins[i]);
                if i < lead {
                    assert(ins[i] == pre[i]);
                } else if i > lead {
                    assert(ins[i] == pre[i - 1]);
                }
            }
            lemma_boundary(mid, lead as nat);
            lemma_remove_keeps_shape(mid, lead);
            let removed2 = mid.remove(lead);
            let item2 = HistoryItem { entry: second, pinned: mid[lead].pinned };
            assert(lead_pins(removed2) == lead);
            assert(post == removed2.insert(lead, item2));
            removed2.insert_ensures(lead, item2);
            assert forall|i: int| 0 <= i < post.len() implies post[i].entry@ == mid[i].entry@
                && post[i].pinned == mid[i].pinned by {
                if i < lead {
                    assert(post[i] == removed2[i]);
                    assert(removed2[i] == mid[i]);
                } else if i > lead {
                    assert(post[i] == removed2[i - 1]);
                    assert(removed2[i - 1] == mid[i]);
                }
            }
        }
    }
}

} // verus!
