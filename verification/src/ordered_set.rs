use indexmap::IndexSet;
use vstd::prelude::*;

verus! {

/// `indexmap::IndexSet`, declared so that it can stand in fields and
/// signatures. Nothing is known of what a set holds but what the functions
/// below say of it.
#[verifier::external_type_specification]
#[verifier::external_body]
#[verifier::reject_recursive_types(T)]
#[verifier::reject_recursive_types(S)]
pub struct ExIndexSet<T, S>(IndexSet<T, S>);

/// The items of a set of `(block id, block data)` pairs, in the order in
/// which the set keeps them.
pub uninterp spec fn block_set_items(set: IndexSet<(u16, u64)>) -> Seq<(u16, u64)>;

/// The items of a set of positions, in the order in which the set keeps them.
pub uninterp spec fn pos_set_items(set: IndexSet<(i32, i32, i32)>) -> Seq<(i32, i32, i32)>;

/// What is left of `items` when the item at place `index` is taken out by
/// moving the last item into its place.
pub open spec fn swap_removed<T>(items: Seq<T>, index: int) -> Seq<T>
    recommends
        0 <= index < items.len(),
{
    items.update(index, items.last()).drop_last()
}

/// `IndexSet::new`: the new set holds nothing.
#[verifier::external_body]
pub(crate) fn block_set_new() -> (set: IndexSet<(u16, u64)>)
    ensures
        block_set_items(set) == Seq::<(u16, u64)>::empty(),
{
    IndexSet::new()
}

/// `IndexSet::len`: the number of items that the set holds.
#[verifier::external_body]
pub(crate) fn block_set_len(set: &IndexSet<(u16, u64)>) -> (len: usize)
    ensures
        len == block_set_items(*set).len(),
{
    set.len()
}

/// `IndexSet::insert`: an item that the set already holds leaves the set as
/// it is; any other is added behind the last item. The result says whether
/// the item was added.
#[verifier::external_body]
pub(crate) fn block_set_insert(set: &mut IndexSet<(u16, u64)>, item: (u16, u64)) -> (added: bool)
    ensures
        added == !block_set_items(*old(set)).contains(item),
        added ==> block_set_items(*final(set)) == block_set_items(*old(set)).push(item),
        !added ==> block_set_items(*final(set)) == block_set_items(*old(set)),
{
    set.insert(item)
}

/// `IndexSet::get_index_of`: the place of an item that the set holds, and
/// `None` for one that it does not hold.
#[verifier::external_body]
pub(crate) fn block_set_get_index_of(set: &IndexSet<(u16, u64)>, item: (u16, u64)) -> (index:
    Option<usize>)
    ensures
        match index {
            Some(i) => i < block_set_items(*set).len() && block_set_items(*set)[i as int] == item,
            None => !block_set_items(*set).contains(item),
        },
{
    set.get_index_of(&item)
}

/// `IndexSet::get_index`: the item at a place below the set's length, and
/// `None` for any other place.
#[verifier::external_body]
pub(crate) fn block_set_get_index(set: &IndexSet<(u16, u64)>, index: usize) -> (item: Option<
    (u16, u64),
>)
    ensures
        item == if index < block_set_items(*set).len() {
            Some(block_set_items(*set)[index as int])
        } else {
            None
        },
{
    set.get_index(index).copied()
}

/// `IndexSet::clone`: the copy holds the same items in the same order.
#[verifier::external_body]
pub(crate) fn block_set_clone(set: &IndexSet<(u16, u64)>) -> (copy: IndexSet<(u16, u64)>)
    ensures
        block_set_items(copy) == block_set_items(*set),
{
    set.clone()
}

/// `IndexSet::new`: the new set holds nothing.
#[verifier::external_body]
pub(crate) fn pos_set_new() -> (set: IndexSet<(i32, i32, i32)>)
    ensures
        pos_set_items(set) == Seq::<(i32, i32, i32)>::empty(),
{
    IndexSet::new()
}

/// `IndexSet::len`: the number of items that the set holds.
#[verifier::external_body]
pub(crate) fn pos_set_len(set: &IndexSet<(i32, i32, i32)>) -> (len: usize)
    ensures
        len == pos_set_items(*set).len(),
{
    set.len()
}

/// `IndexSet::insert`: an item that the set already holds leaves the set as
/// it is; any other is added behind the last item. The result says whether
/// the item was added.
#[verifier::external_body]
pub(crate) fn pos_set_insert(set: &mut IndexSet<(i32, i32, i32)>, item: (i32, i32, i32)) -> (added:
    bool)
    ensures
        added == !pos_set_items(*old(set)).contains(item),
        added ==> pos_set_items(*final(set)) == pos_set_items(*old(set)).push(item),
        !added ==> pos_set_items(*final(set)) == pos_set_items(*old(set)),
{
    set.insert(item)
}

/// `IndexSet::get_index_of`: the place of an item that the set holds, and
/// `None` for one that it does not hold.
#[verifier::external_body]
pub(crate) fn pos_set_get_index_of(set: &IndexSet<(i32, i32, i32)>, item: (i32, i32, i32)) -> (index:
    Option<usize>)
    ensures
        match index {
            Some(i) => i < pos_set_items(*set).len() && pos_set_items(*set)[i as int] == item,
            None => !pos_set_items(*set).contains(item),
        },
{
    set.get_index_of(&item)
}

/// `IndexSet::get_index`: the item at a place below the set's length, and
/// `None` for any other place.
#[verifier::external_body]
pub(crate) fn pos_set_get_index(set: &IndexSet<(i32, i32, i32)>, index: usize) -> (item: Option<
    (i32, i32, i32),
>)
    ensures
        item == if index < pos_set_items(*set).len() {
            Some(pos_set_items(*set)[index as int])
        } else {
            None
        },
{
    set.get_index(index).copied()
}

/// `IndexSet::swap_remove_full`: an item that the set holds is taken out by
/// moving the last item into its place, and its former place is returned;
/// for an item that the set does not hold nothing changes.
#[verifier::external_body]
pub(crate) fn pos_set_swap_remove(set: &mut IndexSet<(i32, i32, i32)>, item: (i32, i32, i32)) -> (index:
    Option<usize>)
    ensures
        match index {
            Some(i) => {
                &&& i < pos_set_items(*old(set)).len()
                &&& pos_set_items(*old(set))[i as int] == item
                &&& pos_set_items(*final(set)) == swap_removed(pos_set_items(*old(set)), i as int)
            },
            None => {
                &&& !pos_set_items(*old(set)).contains(item)
                &&& pos_set_items(*final(set)) == pos_set_items(*old(set))
            },
        },
{
    set.swap_remove_full(&item).map(|(index, _)| index)
}

} // verus!
