//! Bounded histories: the analyzer's weight and entropy histories, the
//! memory system's short-term buffers and the analyzer's attractor list keep
//! only their latest entries.
use std::collections::VecDeque;
use vstd::prelude::*;

verus! {

/// The window after `item` is appended to `window` of capacity `cap`: when
/// the window is full, its oldest entry is dropped first.
pub open spec fn window_after<T>(window: Seq<T>, item: T, cap: nat) -> Seq<T> {
    if window.len() == cap && cap > 0 {
        window.drop_first().push(item)
    } else {
        window.push(item)
    }
}

/// Appends `item` to a window of capacity `cap`, dropping the oldest entry
/// first when the window is full.
pub fn push_bounded<T>(window: &mut VecDeque<T>, item: T, cap: usize)
    ensures
        final(window)@ == window_after(old(window)@, item, cap as nat),
{
    if window.len() == cap {
        let _ = window.pop_front();
    }
    window.push_back(item);
}

/// A window that starts within its capacity stays within it, ends with the
/// newest item, and keeps the older entries in order (all of them, or all
/// but the oldest when it was full).
pub proof fn lemma_window_bounded<T>(window: Seq<T>, item: T, cap: nat)
    requires
        window.len() <= cap,
        cap > 0,
    ensures
        window_after(window, item, cap).len() <= cap,
        window_after(window, item, cap).last() == item,
        window_after(window, item, cap).drop_last() == if window.len() == cap {
            window.drop_first()
        } else {
            window
        },
{
    let w = window_after(window, item, cap);
    if window.len() == cap {
        assert(w.drop_last() =~= window.drop_first());
    } else {
        assert(w.drop_last() =~= window);
    }
}

/// `list` with `item` appended, cut to its last `cap` entries.
pub open spec fn latest_after<T>(list: Seq<T>, item: T, cap: nat) -> Seq<T> {
    let all = list.push(item);
    if all.len() > cap {
        all.skip(all.len() - cap)
    } else {
        all
    }
}

/// Appends `item` to `list` and drops the oldest entries until at most `cap`
/// remain.
pub fn push_keep_latest<T>(list: &mut Vec<T>, item: T, cap: usize)
    ensures
        final(list)@ == latest_after(old(list)@, item, cap as nat),
{
    list.push(item);
    let ghost all: Seq<T> = list@;
    assert(all.len() == list.len());
    let mut dropped: usize = 0;
    while list.len() > cap
        invariant
            all == old(list)@.push(item),
            all.len() == list@.len() + dropped,
            all.len() <= usize::MAX,
            dropped as int <= if all.len() > cap {
                all.len() - cap
            } else {
                0
            },
            list@ == all.skip(dropped as int),
        decreases list@.len(),
    {
        list.remove(0);
        assert(all.skip(dropped as int + 1) =~= all.skip(dropped as int).drop_first());
        dropped = dropped + 1;
    }
    proof {
        if all.len() > cap {
            assert(dropped == all.len() - cap);
        } else {
            assert(all.skip(0) =~= all);
        }
    }
}

/// The list never holds more than `cap` entries afterwards, and its newest
/// entry is `item` whenever it keeps any.
pub proof fn lemma_latest_bounded<T>(list: Seq<T>, item: T, cap: nat)
    ensures
        latest_after(list, item, cap).len() <= cap,
        cap > 0 ==> latest_after(list, item, cap).last() == item,
{
}

/// The list keeps exactly its latest entries, oldest first: as many as fit
/// in `cap`, and they are the last ones of `list` followed by `item`.
pub proof fn lemma_latest_keeps_newest<T>(list: Seq<T>, item: T, cap: nat)
    ensures
        latest_after(list, item, cap).len() == if list.len() + 1 <= cap {
            list.len() + 1
        } else {
            cap
        },
        forall|i: int|
            0 <= i < latest_after(list, item, cap).len() ==> #[trigger] latest_after(
                list,
                item,
                cap,
            )[i] == list.push(item)[list.len() + 1 - latest_after(list, item, cap).len() + i],
{
}

} // verus!
