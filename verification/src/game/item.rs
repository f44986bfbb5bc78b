//! Item catalog and inventories: a database of item kinds addressed by a
//! textual key or by a stable index, and per-holder item counts.

use vstd::prelude::*;

verus! {

/// One kind of item: its lookup key, display name and unit value.
#[derive(Debug)]
pub struct ItemType {
    pub key: String,
    pub name: String,
    pub value: u32,
}

/// Stable identifier of an item kind, assigned at insertion.
#[derive(Debug, Clone, Copy, PartialEq, Eq, PartialOrd, Ord, Hash, Structural)]
pub struct ItemIndex(usize);

impl ItemIndex {
    /// The position of the item kind in the database.
    pub closed spec fn spec_index(self) -> int {
        self.0 as int
    }
}

/// The database of item kinds: an append-only arena addressed by index,
/// with key lookup; when several kinds share a key, the key resolves to the
/// one inserted last.
pub struct ItemDatabase {
    items: Vec<ItemType>,
}

/// The position of the last item with the given key, if any.
pub open spec fn find_key(items: Seq<ItemType>, key: Seq<char>) -> Option<int>
    decreases items.len(),
{
    if items.len() == 0 {
        None
    } else if items.last().key@ == key {
        Some(items.len() - 1)
    } else {
        find_key(items.drop_last(), key)
    }
}

impl ItemDatabase {
    /// The item kinds, in insertion order.
    pub closed spec fn items_seq(&self) -> Seq<ItemType> {
        self.items@
    }

    /// Constructs the empty database.
    pub fn new() -> (db: Self)
        ensures
            db.items_seq() == Seq::<ItemType>::empty(),
    {
        Self { items: Vec::new() }
    }

    /// Appends an item kind and returns its new index; a key already in use
    /// now resolves to this item.
    pub fn insert(&mut self, item: ItemType) -> (idx: ItemIndex)
        ensures
            final(self).items_seq() == old(self).items_seq().push(item),
            idx.spec_index() == old(self).items_seq().len(),
    {
        let idx = ItemIndex(self.items.len());
        self.items.push(item);
        idx
    }

    /// Resolves a key to the index of the last item inserted under it;
    /// absent when no item has the key.
    pub fn get_index(&self, key: &str) -> (r: Option<ItemIndex>)
        ensures
            match r {
                Some(idx) => find_key(self.items_seq(), key@) == Some(idx.spec_index()),
                None => find_key(self.items_seq(), key@) is None,
            },
    {
        let key_string = key.to_owned();
        let mut i: usize = self.items.len();
        proof {
            assert(self.items@.subrange(0, self.items@.len() as int) =~= self.items@);
        }
        while i > 0
            invariant
                i <= self.items@.len(),
                key_string@ == key@,
                find_key(self.items@, key@) == find_key(self.items@.subrange(0, i as int), key@),
            decreases i,
        {
            i -= 1;
            if self.items[i].key == key_string {
                proof {
                    assert(self.items@.subrange(0, i + 1).last() == self.items@[i as int]);
                }
                return Some(ItemIndex(i));
            }
            proof {
                assert(self.items@.subrange(0, i + 1).last() == self.items@[i as int]);
                assert(self.items@.subrange(0, i + 1).drop_last() =~= self.items@.subrange(
                    0,
                    i as int,
                ));
            }
        }
        proof {
            assert(self.items@.subrange(0, 0).len() == 0);
        }
        None
    }

    /// Looks the item up by key: the last item inserted under the key, or
    /// absent when no item has it.
    pub fn get_item_by_key(&self, key: &str) -> (r: Option<&ItemType>)
        ensures
            match r {
                Some(item) => find_key(self.items_seq(), key@) matches Some(i) && *item
                    == self.items_seq()[i],
                None => find_key(self.items_seq(), key@) is None,
            },
    {
        if let Some(idx) = self.get_index(key) {
            proof {
                lemma_find_key_props(self.items@, key@);
            }
            Some(&self.items[idx.0])
        } else {
            None
        }
    }
}

/// What a holder carries: a count per item kind, zero when absent.
#[derive(Debug)]
pub struct Inventory {
    items: Vec<(ItemIndex, u32)>,
}

/// The count recorded for an item kind, if one is recorded.
pub open spec fn lookup_count(entries: Seq<(ItemIndex, u32)>, item: ItemIndex) -> Option<u32>
    decreases entries.len(),
{
    if entries.len() == 0 {
        None
    } else if entries.last().0 == item {
        Some(entries.last().1)
    } else {
        lookup_count(entries.drop_last(), item)
    }
}

/// The count of an item kind, zero when none is recorded.
pub open spec fn spec_count(entries: Seq<(ItemIndex, u32)>, item: ItemIndex) -> u32 {
    match lookup_count(entries, item) {
        Some(q) => q,
        None => 0,
    }
}

impl Inventory {
    /// The recorded (item kind, count) entries.
    pub closed spec fn entries(&self) -> Seq<(ItemIndex, u32)> {
        self.items@
    }

    /// Each item kind has at most one entry.
    pub open spec fn wf(&self) -> bool {
        forall|i: int, j: int|
            0 <= i < j < self.entries().len() ==> (#[trigger] self.entries()[i]).0 != (
            #[trigger] self.entries()[j]).0
    }

    /// Constructs the empty inventory.
    pub fn new() -> (inv: Self)
        ensures
            inv.wf(),
            inv.entries() == Seq::<(ItemIndex, u32)>::empty(),
    {
        Self { items: Vec::new() }
    }

    /// The count currently held of an item kind, zero when none is.
    pub fn count(&self, item: ItemIndex) -> (q: u32)
        requires
            self.wf(),
        ensures
            q == spec_count(self.entries(), item),
    {
        let len = self.items.len();
        let mut i: usize = 0;
        while i < len
            invariant
                self.wf(),
                len == self.items@.len(),
                i <= len,
                forall|k: int| 0 <= k < i ==> (#[trigger] self.items@[k]).0 != item,
            decreases len - i,
        {
            if self.items[i].0 == item {
                proof {
                    assert forall|a: int, b: int|
                        0 <= a < b < self.items@.len() implies (#[trigger] self.items@[a]).0 != (
                    #[trigger] self.items@[b]).0 by {
                        assert(self.entries()[a] == self.items@[a]);
                        assert(self.entries()[b] == self.items@[b]);
                    }
                    lemma_lookup_at(self.items@, i as int);
                }
                return self.items[i].1;
            }
            i += 1;
        }
        proof {
            lemma_lookup_absent(self.items@, item);
        }
        0
    }

    /// Adds `amount` of an item kind and returns the new count of that
    /// kind; counts of other kinds are unchanged.
    pub fn add_item(&mut self, item: ItemIndex, amount: u32) -> (q: u32)
        requires
            old(self).wf(),
            spec_count(old(self).entries(), item) + amount <= u32::MAX,
        ensures
            final(self).wf(),
            q == spec_count(old(self).entries(), item) + amount,
            spec_count(final(self).entries(), item) == q,
            forall|other: ItemIndex|
                other != item ==> #[trigger] spec_count(final(self).entries(), other)
                    == spec_count(old(self).entries(), other),
    {
        let len = self.items.len();
        let mut i: usize = 0;
        while i < len
            invariant
                self.items@ == old(self).items@,
                old(self).wf(),
                spec_count(old(self).entries(), item) + amount <= u32::MAX,
                len == self.items@.len(),
                i <= len,
                forall|k: int| 0 <= k < i ==> (#[trigger] self.items@[k]).0 != item,
            decreases len - i,
        {
            if self.items[i].0 == item {
                proof {
                    lemma_lookup_at(self.items@, i as int);
                }
                let q = self.items[i].1 + amount;
                self.items[i] = (item, q);
                proof {
                    lemma_lookup_update(old(self).items@, i as int, q);
                }
                return q;
            }
            i += 1;
        }
        proof {
            lemma_lookup_absent(self.items@, item);
        }
        let ghost old_items = self.items@;
        self.items.push((item, amount));
        proof {
            assert(self.items@.drop_last() =~= old_items);
            assert forall|other: ItemIndex| other != item implies #[trigger] spec_count(
                self.items@,
                other,
            ) == spec_count(old_items, other) by {
                assert(self.items@.last().0 == item);
            }
        }
        amount
    }
}

/// A found key position lies in range and carries the key.
proof fn lemma_find_key_props(items: Seq<ItemType>, key: Seq<char>)
    ensures
        find_key(items, key) matches Some(i) ==> 0 <= i < items.len() && items[i].key@ == key,
    decreases items.len(),
{
    if items.len() > 0 {
        lemma_find_key_props(items.drop_last(), key);
    }
}

/// In a well-formed entry list, the entry at `i` is what lookup finds for
/// its item kind.
proof fn lemma_lookup_at(entries: Seq<(ItemIndex, u32)>, i: int)
    requires
        0 <= i < entries.len(),
        forall|a: int, b: int|
            0 <= a < b < entries.len() ==> (#[trigger] entries[a]).0 != (#[trigger] entries[b]).0,
    ensures
        lookup_count(entries, entries[i].0) == Some(entries[i].1),
    decreases entries.len(),
{
    if i < entries.len() - 1 {
        assert(entries.last().0 != entries[i].0);
        lemma_lookup_at(entries.drop_last(), i);
    }
}

/// Updating the entry at `i` changes lookup for its item kind alone.
proof fn lemma_lookup_update(entries: Seq<(ItemIndex, u32)>, i: int, q: u32)
    requires
        0 <= i < entries.len(),
        forall|a: int, b: int|
            0 <= a < b < entries.len() ==> (#[trigger] entries[a]).0 != (#[trigger] entries[b]).0,
    ensures
        lookup_count(entries.update(i, (entries[i].0, q)), entries[i].0) == Some(q),
        forall|other: ItemIndex|
            other != entries[i].0 ==> #[trigger] lookup_count(
                entries.update(i, (entries[i].0, q)),
                other,
            ) == lookup_count(entries, other),
        forall|a: int, b: int|
            0 <= a < b < entries.len() ==> (#[trigger] entries.update(i, (entries[i].0, q))[a]).0
                != (#[trigger] entries.update(i, (entries[i].0, q))[b]).0,
    decreases entries.len(),
{
    let upd = entries.update(i, (entries[i].0, q));
    if i == entries.len() - 1 {
        assert(upd.last() == (entries[i].0, q));
        assert(upd.drop_last() =~= entries.drop_last());
    } else {
        assert(entries.last().0 != entries[i].0);
        lemma_lookup_update(entries.drop_last(), i, q);
        assert(upd.drop_last() =~= entries.drop_last().update(i, (entries[i].0, q)));
        assert(upd.last() == entries.last());
        assert forall|other: ItemIndex| other != entries[i].0 implies #[trigger] lookup_count(
            upd,
            other,
        ) == lookup_count(entries, other) by {
            if other != entries.last().0 {
                assert(lookup_count(upd, other) == lookup_count(upd.drop_last(), other));
            }
        }
    }
}

/// An item kind that no entry records looks up to nothing.
proof fn lemma_lookup_absent(entries: Seq<(ItemIndex, u32)>, item: ItemIndex)
    requires
        forall|k: int| 0 <= k < entries.len() ==> (#[trigger] entries[k]).0 != item,
    ensures
        lookup_count(entries, item) is None,
    decreases entries.len(),
{
    if entries.len() > 0 {
        lemma_lookup_absent(entries.drop_last(), item);
    }
}

} // verus!
