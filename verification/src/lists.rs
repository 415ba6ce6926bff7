//! The lists that are open while the block tags of a document are rendered, and
//! the markers of their items.

use vstd::prelude::*;

use crate::text::{decimal, owned, push_decimal};

verus! {

/// An open list: an ordered one with the number of its next item, or an
/// unordered one.
#[derive(Debug, Clone, Copy, PartialEq, Eq)]
pub enum ListContext {
    Ordered { next_index: usize },
    Unordered,
}

/// The open lists, the innermost one last.
#[derive(Debug)]
pub struct ListState {
    pub stack: Vec<ListContext>,
}

impl View for ListState {
    type V = Seq<ListContext>;

    open spec fn view(&self) -> Seq<ListContext> {
        self.stack@
    }
}

impl Default for ListState {
    fn default() -> (state: Self)
        ensures
            state@ == Seq::<ListContext>::empty(),
    {
        ListState { stack: Vec::new() }
    }
}

/// Whether a list is of the given kind.
pub open spec fn of_kind(context: ListContext, ordered: bool) -> bool {
    (context is Ordered) == ordered
}

/// The open lists after a list has been opened; an ordered one counts from 1.
pub open spec fn opened(stack: Seq<ListContext>, ordered: bool) -> Seq<ListContext> {
    stack.push(
        if ordered {
            ListContext::Ordered { next_index: 1 }
        } else {
            ListContext::Unordered
        },
    )
}

/// The open lists after the innermost list of a kind has been closed, wherever
/// it stands; all of them if there is none of that kind.
pub open spec fn closed(stack: Seq<ListContext>, ordered: bool) -> Seq<ListContext>
    decreases stack.len(),
{
    if stack.len() == 0 {
        stack
    } else if of_kind(stack.last(), ordered) {
        stack.drop_last()
    } else {
        closed(stack.drop_last(), ordered).push(stack.last())
    }
}

/// The number that the next item gets, if the innermost list is an ordered one.
pub open spec fn next_number(stack: Seq<ListContext>) -> Option<usize> {
    if stack.len() > 0 {
        match stack.last() {
            ListContext::Ordered { next_index } => Some(next_index),
            ListContext::Unordered => None,
        }
    } else {
        None
    }
}

/// Whether the innermost list can count one more item.
pub open spec fn can_count(stack: Seq<ListContext>) -> bool {
    next_number(stack) matches Some(number) ==> number < usize::MAX
}

/// The marker of the next item: its number and a full stop in an ordered list,
/// else a dash.
pub open spec fn item_marker(stack: Seq<ListContext>) -> Seq<char> {
    match next_number(stack) {
        Some(number) => decimal(number as nat) + ". "@,
        None => "- "@,
    }
}

/// The open lists after an item of the innermost one has been counted.
pub open spec fn counted(stack: Seq<ListContext>) -> Seq<ListContext> {
    match next_number(stack) {
        Some(number) => stack.update(
            stack.len() - 1,
            ListContext::Ordered { next_index: (number + 1) as usize },
        ),
        None => stack,
    }
}

/// Tests whether a list is of the given kind.
pub fn list_context_matches(context: ListContext, ordered: bool) -> (same: bool)
    ensures
        same == of_kind(context, ordered),
{
    match context {
        ListContext::Ordered { .. } => ordered,
        ListContext::Unordered => !ordered,
    }
}

impl ListState {
    /// Opens a list.
    pub fn open_list(&mut self, ordered: bool)
        ensures
            final(self)@ == opened(old(self)@, ordered),
    {
        let context = if ordered {
            ListContext::Ordered { next_index: 1 }
        } else {
            ListContext::Unordered
        };
        self.stack.push(context);
    }

    /// Closes the innermost list of a kind, if there is one.
    pub fn close_list(&mut self, ordered: bool)
        ensures
            final(self)@ == closed(old(self)@, ordered),
    {
        let ghost before = self.stack@;
        let len: usize = self.stack.len();
        let mut index: usize = len;
        assert(before.subrange(0, len as int) =~= before);
        assert(before =~= before + before.subrange(len as int, len as int));
        while index > 0
            invariant
                index <= len,
                len == before.len(),
                before == old(self)@,
                self.stack@ == before,
                closed(before, ordered) =~= closed(before.subrange(0, index as int), ordered)
                    + before.subrange(index as int, len as int),
            decreases index,
        {
            let ghost head = before.subrange(0, index as int);
            assert(head.drop_last() =~= before.subrange(0, index - 1));
            if list_context_matches(self.stack[index - 1], ordered) {
                self.stack.remove(index - 1);
                assert(self.stack@ =~= closed(before, ordered));
                return ;
            }
            assert(before.subrange(index - 1, len as int) =~= seq![head.last()]
                + before.subrange(index as int, len as int));
            index -= 1;
        }
        assert(closed(before, ordered) =~= before);
    }

    /// Gives the marker of the next item of the innermost list, and counts the
    /// item.
    pub fn list_item_prefix(&mut self) -> (marker: String)
        requires
            can_count(old(self)@),
        ensures
            marker@ == item_marker(old(self)@),
            final(self)@ == counted(old(self)@),
    {
        let len: usize = self.stack.len();
        if len > 0 {
            if let ListContext::Ordered { next_index } = self.stack[len - 1] {
                let mut marker = String::new();
                push_decimal(&mut marker, next_index as u64);
                marker.append(". ");
                self.stack.set(len - 1, ListContext::Ordered { next_index: next_index + 1 });
                assert(marker@ =~= item_marker(old(self)@));
                return marker;
            }
        }
        owned("- ")
    }
}

} // verus!
