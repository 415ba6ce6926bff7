//! Laws of the open lists: how items are numbered, and what opening and closing
//! a list leaves unchanged.

use vstd::prelude::*;

use crate::lists::{closed, counted, item_marker, next_number, of_kind, opened, ListContext};
use crate::text::decimal;

verus! {

/// The open lists after a number of items have been counted.
pub open spec fn after_items(stack: Seq<ListContext>, items: nat) -> Seq<ListContext>
    decreases items,
{
    if items == 0 {
        stack
    } else {
        counted(after_items(stack, (items - 1) as nat))
    }
}

proof fn lemma_after_items(stack: Seq<ListContext>, ordered: bool, items: nat)
    requires
        items < usize::MAX,
    ensures
        after_items(opened(stack, ordered), items).drop_last() == stack,
        after_items(opened(stack, ordered), items).len() == stack.len() + 1,
        of_kind(after_items(opened(stack, ordered), items).last(), ordered),
        next_number(after_items(opened(stack, ordered), items)) == (if ordered {
            Some((items + 1) as usize)
        } else {
            None
        }),
    decreases items,
{
    let before = opened(stack, ordered);
    assert(before.drop_last() =~= stack);
    if items > 0 {
        lemma_after_items(stack, ordered, (items - 1) as nat);
        assert(after_items(before, items).drop_last() =~= stack);
    }
}

/// The items of an ordered list are numbered 1, 2, 3 and so on: after some items
/// the next one is marked with the number that follows.
pub proof fn ordered_items_are_numbered_in_turn(stack: Seq<ListContext>, items: nat)
    requires
        items < usize::MAX,
    ensures
        item_marker(after_items(opened(stack, true), items)) == decimal(items + 1) + ". "@,
{
    lemma_after_items(stack, true, items);
}

/// The items of an unordered list are marked with a dash.
pub proof fn unordered_items_are_dashes(stack: Seq<ListContext>, items: nat)
    requires
        items < usize::MAX,
    ensures
        item_marker(after_items(opened(stack, false), items)) == "- "@,
{
    lemma_after_items(stack, false, items);
}

/// A list that is opened, filled and closed leaves the lists around it as they
/// were, so that an ordered list goes on counting where it stopped.
pub proof fn inner_list_leaves_outer_lists(stack: Seq<ListContext>, ordered: bool, items: nat)
    requires
        items < usize::MAX,
    ensures
        closed(after_items(opened(stack, ordered), items), ordered) == stack,
{
    lemma_after_items(stack, ordered, items);
}

/// Whether a list of a kind is open.
pub open spec fn has_kind(stack: Seq<ListContext>, ordered: bool) -> bool {
    exists|i: int| 0 <= i < stack.len() && of_kind(#[trigger] stack[i], ordered)
}

/// Closing a list of a kind of which none is open changes nothing.
pub proof fn closing_without_opening_changes_nothing(stack: Seq<ListContext>, ordered: bool)
    requires
        !has_kind(stack, ordered),
    ensures
        closed(stack, ordered) == stack,
    decreases stack.len(),
{
    if stack.len() > 0 {
        assert(!of_kind(stack[stack.len() - 1], ordered));
        assert forall|i: int| 0 <= i < stack.drop_last().len() implies !of_kind(
            #[trigger] stack.drop_last()[i],
            ordered,
        ) by {
            assert(!of_kind(stack[i], ordered));
        }
        closing_without_opening_changes_nothing(stack.drop_last(), ordered);
        assert(stack.drop_last().push(stack.last()) =~= stack);
    }
}

/// Closing a list of a kind that is open removes one list: the innermost of that
/// kind.
pub proof fn closing_removes_the_innermost(stack: Seq<ListContext>, ordered: bool, i: int)
    requires
        0 <= i < stack.len(),
        of_kind(stack[i], ordered),
        forall|k: int| i < k < stack.len() ==> !of_kind(#[trigger] stack[k], ordered),
    ensures
        closed(stack, ordered) == stack.remove(i),
    decreases stack.len(),
{
    if i == stack.len() - 1 {
        assert(stack.drop_last() =~= stack.remove(i));
    } else {
        assert(!of_kind(stack[stack.len() - 1], ordered));
        closing_removes_the_innermost(stack.drop_last(), ordered, i);
        assert(closed(stack, ordered) =~= stack.remove(i));
    }
}

} // verus!
