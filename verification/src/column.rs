//! Chart columns: sets of items with their provenance.
//!
//! A column is kept as a vector of entries in insertion order — the
//! enumeration order is therefore deterministic — with the invariant that no
//! item occurs twice. An item, once inserted, is never removed and its
//! provenance is never updated.

use vstd::prelude::*;

use crate::grammar::{has_prod, ProdV};
use crate::item::{InsertedBy, Item, ItemV};

verus! {

/// One chart entry: an item and the inference that first produced it.
#[derive(Debug, Clone)]
pub struct Entry {
    pub item: Item,
    pub by: InsertedBy,
}

/// Specification-level entry.
#[verifier::ext_equal]
pub struct EntryV {
    pub item: ItemV,
    pub by: InsertedBy,
}

impl View for Entry {
    type V = EntryV;

    open spec fn view(&self) -> EntryV {
        EntryV { item: self.item@, by: self.by }
    }
}

/// The views of a sequence of entries.
pub open spec fn entries_view(s: Seq<Entry>) -> Seq<EntryV> {
    s.map_values(|e: Entry| e@)
}

/// Whether the column holds `it` (under any provenance).
pub open spec fn col_has(col: Seq<EntryV>, it: ItemV) -> bool {
    exists|k: int| 0 <= k < col.len() && col[k].item == it
}

/// Whether no item occurs twice in the column.
pub open spec fn distinct_items(col: Seq<EntryV>) -> bool {
    forall|a: int, b: int| 0 <= a < b < col.len() ==> col[a].item != col[b].item
}

/// Structural well-formedness of column `c` under grammar `g`: every entry's
/// item is a dotted form of a grammar production whose range ends at `c`,
/// and no item occurs twice.
pub open spec fn col_wf(g: Seq<ProdV>, c: int, col: Seq<EntryV>) -> bool {
    &&& distinct_items(col)
    &&& forall|k: int| 0 <= k < col.len() ==> (#[trigger] col[k]).item.wf()
    &&& forall|k: int| 0 <= k < col.len() ==> (#[trigger] col[k]).item.end == c
    &&& forall|k: int|
        0 <= k < col.len() ==> has_prod(g, (#[trigger] col[k]).item.name, col[k].item.exp)
}

/// Looks `it` up in the column.
pub fn find_item(col: &Vec<Entry>, it: &Item) -> (r: Option<usize>)
    ensures
        match r {
            Some(k) => k < col@.len() && entries_view(col@)[k as int].item == it@,
            None => !col_has(entries_view(col@), it@),
        },
{
    let mut k: usize = 0;
    while k < col.len()
        invariant
            k <= col.len(),
            forall|a: int| 0 <= a < k ==> entries_view(col@)[a].item != it@,
        decreases col.len() - k,
    {
        if col[k].item.same(it) {
            return Some(k);
        }
        k += 1;
    }
    None
}

/// Whether the column holds `it`.
pub fn contains_item(col: &Vec<Entry>, it: &Item) -> (r: bool)
    ensures
        r == col_has(entries_view(col@), it@),
{
    match find_item(col, it) {
        Some(_) => true,
        None => false,
    }
}

/// Appends an entry whose item is not yet present.
pub fn push_new(col: &mut Vec<Entry>, e: Entry)
    requires
        !col_has(entries_view(old(col)@), e.item@),
    ensures
        entries_view(final(col)@) == entries_view(old(col)@).push(e@),
        distinct_items(entries_view(old(col)@)) ==> distinct_items(entries_view(final(col)@)),
        forall|it: ItemV|
            col_has(entries_view(final(col)@), it) <==> (col_has(entries_view(old(col)@), it)
                || it == e.item@),
{
    let ghost pre = entries_view(col@);
    let ghost ev = e@;
    col.push(e);
    proof {
        assert(entries_view(col@) =~= pre.push(ev));
        assert forall|it: ItemV|
            col_has(entries_view(col@), it) <==> (col_has(pre, it) || it == ev.item) by {
            if col_has(pre, it) {
                let k = choose|k: int| 0 <= k < pre.len() && pre[k].item == it;
                assert(entries_view(col@)[k].item == it);
            }
            assert(entries_view(col@)[pre.len() as int] == ev);
            if col_has(entries_view(col@), it) {
                let k = choose|k: int|
                    0 <= k < entries_view(col@).len() && entries_view(col@)[k].item == it;
                if k < pre.len() {
                    assert(pre[k].item == it);
                }
            }
        }
        if distinct_items(pre) {
            assert forall|a: int, b: int|
                0 <= a < b < entries_view(col@).len() implies entries_view(col@)[a].item
                != entries_view(col@)[b].item by {
                if b < pre.len() {
                    assert(pre[a].item != pre[b].item);
                } else {
                    assert(entries_view(col@)[b] == ev);
                    assert(entries_view(col@)[a] == pre[a]);
                    assert(!col_has(pre, ev.item));
                }
            }
        }
    }
}

} // verus!
