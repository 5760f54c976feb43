//! Edits of the entries of a compound, as chosen from the context menu of an
//! entry in the tree view, and the clipboard that they share.
use vstd::prelude::*;

verus! {

/// What the clipboard of the tree view holds: an entry of a compound (a key
/// and a value) or an item of a list (a value alone).
#[derive(Debug, Clone)]
pub enum Clipboard<K, V> {
    CompoundEntry(K, V),
    ListEntry(V),
}

/// An edit chosen from the context menu of a compound entry.
#[derive(Debug, Clone, Copy, PartialEq, Eq, Structural)]
pub enum EntryAction {
    /// Removes the entry.
    Delete,
    /// Removes the entry and puts it on the clipboard.
    Cut,
    /// Puts a copy of the entry on the clipboard.
    Copy,
    /// Replaces the entry's value by the clipboard's value.
    ValueInPlace,
    /// Replaces the entry by the clipboard's compound entry.
    TagAndValueInPlace,
    /// Inserts the clipboard's content before the entry.
    InsertAbove,
    /// Inserts the clipboard's content after the entry.
    InsertBelow,
}

/// `new` is `old` with the element at `i` changed and every other one kept.
pub open spec fn replaced_at<T>(old: Seq<T>, new: Seq<T>, i: int) -> bool {
    &&& new.len() == old.len()
    &&& forall|j: int| 0 <= j < old.len() && j != i ==> #[trigger] new[j] == old[j]
}

/// `new` is `old` with one element inserted at `i`.
pub open spec fn inserted_at<T>(old: Seq<T>, new: Seq<T>, i: int) -> bool {
    &&& new.len() == old.len() + 1
    &&& forall|j: int| 0 <= j < i ==> #[trigger] new[j] == old[j]
    &&& forall|j: int| i <= j < old.len() ==> #[trigger] new[j + 1] == old[j]
}

/// The entry that pasting `c` inserts is made of: a copy of `c`'s key, or
/// `empty_key` for a list item, and a copy of its value.
pub open spec fn pasted_entry<K: Clone, V: Clone>(c: Clipboard<K, V>, empty_key: K, e: (K, V)) -> bool {
    match c {
        Clipboard::CompoundEntry(k, v) => cloned(k, e.0) && cloned(v, e.1),
        Clipboard::ListEntry(v) => e.0 == empty_key && cloned(v, e.1),
    }
}

/// Applies `action` to entry `idx` of `entries`, with the clipboard
/// `clipboard`. A paste with an empty clipboard, or a key-and-value paste of
/// a list item, changes nothing.
pub fn apply_entry_action<K: Clone, V: Clone>(
    entries: &mut Vec<(K, V)>,
    action: EntryAction,
    idx: usize,
    clipboard: &mut Option<Clipboard<K, V>>,
    empty_key: K,
)
    requires
        idx < old(entries)@.len(),
    ensures
        action != EntryAction::Cut && action != EntryAction::Copy ==> *final(clipboard) == *old(clipboard),
        action == EntryAction::Delete ==> final(entries)@ == old(entries)@.remove(idx as int),
        action == EntryAction::Cut ==> final(entries)@ == old(entries)@.remove(idx as int)
            && *final(clipboard) == Some(
            Clipboard::CompoundEntry(old(entries)@[idx as int].0, old(entries)@[idx as int].1),
        ),
        action == EntryAction::Copy ==> final(entries)@ == old(entries)@ && (*final(clipboard) matches Some(
            Clipboard::CompoundEntry(k, v),
        ) && cloned(old(entries)@[idx as int].0, k) && cloned(old(entries)@[idx as int].1, v)),
        action == EntryAction::ValueInPlace ==> match *old(clipboard) {
            None => final(entries)@ == old(entries)@,
            Some(c) => replaced_at(old(entries)@, final(entries)@, idx as int) && final(entries)@[idx as int].0 == old(entries)@[idx as int].0 && cloned(
                match c {
                    Clipboard::CompoundEntry(_, v) => v,
                    Clipboard::ListEntry(v) => v,
                },
                final(entries)@[idx as int].1,
            ),
        },
        action == EntryAction::TagAndValueInPlace ==> match *old(clipboard) {
            Some(Clipboard::CompoundEntry(k, v)) => replaced_at(
                old(entries)@,
                final(entries)@,
                idx as int,
            ) && cloned(k, final(entries)@[idx as int].0) && cloned(
                v,
                final(entries)@[idx as int].1,
            ),
            _ => final(entries)@ == old(entries)@,
        },
        action == EntryAction::InsertAbove || action == EntryAction::InsertBelow ==> ({
            let at: int = if action == EntryAction::InsertAbove {
                idx as int
            } else {
                idx + 1
            };
            match *old(clipboard) {
                None => final(entries)@ == old(entries)@,
                Some(c) => inserted_at(old(entries)@, final(entries)@, at) && pasted_entry(
                    c,
                    empty_key,
                    final(entries)@[at],
                ),
            }
        }),
{
    match action {
        EntryAction::Delete => {
            entries.remove(idx);
        },
        EntryAction::Cut => {
            let (k, v) = entries.remove(idx);
            *clipboard = Some(Clipboard::CompoundEntry(k, v));
        },
        EntryAction::Copy => {
            let k = entries[idx].0.clone();
            let v = entries[idx].1.clone();
            *clipboard = Some(Clipboard::CompoundEntry(k, v));
        },
        EntryAction::ValueInPlace => {
            let value = match &*clipboard {
                None => None,
                Some(Clipboard::CompoundEntry(_, v)) => Some(v.clone()),
                Some(Clipboard::ListEntry(v)) => Some(v.clone()),
            };
            if let Some(value) = value {
                let ghost before = entries@;
                let (k, _) = entries.remove(idx);
                entries.insert(idx, (k, value));
                proof {
                    assert forall|j: int| 0 <= j < before.len() && j != idx implies #[trigger] entries@[j]
                        == before[j] by {
                        if j < idx {
                        } else {
                        }
                    }
                }
            }
        },
        EntryAction::TagAndValueInPlace => {
            let entry = match &*clipboard {
                Some(Clipboard::CompoundEntry(k, v)) => Some((k.clone(), v.clone())),
                _ => None,
            };
            if let Some(entry) = entry {
                let ghost before = entries@;
                entries.set(idx, entry);
                proof {
                    assert forall|j: int| 0 <= j < before.len() && j != idx implies #[trigger] entries@[j]
                        == before[j] by {}
                }
            }
        },
        EntryAction::InsertAbove | EntryAction::InsertBelow => {
            let len = entries.len();
            assert(idx + 1 <= len);
            let at = if action == EntryAction::InsertAbove {
                idx
            } else {
                idx + 1
            };
            let entry = match &*clipboard {
                None => None,
                Some(Clipboard::CompoundEntry(k, v)) => Some((k.clone(), v.clone())),
                Some(Clipboard::ListEntry(v)) => Some((empty_key, v.clone())),
            };
            if let Some(entry) = entry {
                let ghost before = entries@;
                entries.insert(at, entry);
                proof {
                    assert forall|j: int| at <= j < before.len() implies #[trigger] entries@[j + 1]
                        == before[j] by {}
                }
            }
        },
    }
}

} // verus!
