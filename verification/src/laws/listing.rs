//! Laws of the block tags of a document: each one is rendered by itself, and
//! lists come out numbered or with dashes.

use vstd::prelude::*;

use crate::html::{block_tag, blocks_replaced};
use crate::laws::markup::{end_tag, is_name, start_tag};
use crate::laws::numbering::{
    after_items, inner_list_leaves_outer_lists, ordered_items_are_numbered_in_turn,
    unordered_items_are_dashes,
};
use crate::laws::search::{lacks, lemma_next_tag_behind};
use crate::laws::whitespace::bare_text_is_trimmed;
use crate::lists::{closed, counted, item_marker, opened, ListContext};
use crate::tags::{first_word, lemma_next_tag, name_of_tag, next_tag, without_first};
use crate::text::{ascii_lower, decimal, find_char, lemma_find_char, rest, trim, white_space};

verus! {

proof fn lemma_first_word(name: Seq<char>)
    requires
        forall|i: int| 0 <= i < name.len() ==> !white_space(#[trigger] name[i]),
    ensures
        first_word(name) == name,
    decreases name.len(),
{
    if name.len() > 0 {
        let tail = name.subrange(1, name.len() as int);
        lemma_first_word(tail);
        assert(seq![name[0]] + tail =~= name);
    } else {
        assert(first_word(name) =~= name);
    }
}

/// A name is in lower case, and holds no white space, `>` or slash.
pub proof fn lemma_name_chars(name: Seq<char>)
    requires
        is_name(name),
    ensures
        ascii_lower(name) == name,
        first_word(name) == name,
        trim(name) == name,
        lacks(name, '>'),
        name[0] != '/',
        name.last() != '/',
{
    assert forall|i: int| 0 <= i < name.len() implies !white_space(#[trigger] name[i]) by {
        assert(('a' <= name[i] && name[i] <= 'z') || ('0' <= name[i] && name[i] <= '9'));
    }
    assert forall|i: int| 0 <= i < name.len() implies ascii_lower(name)[i] == name[i] by {
        assert(('a' <= name[i] && name[i] <= 'z') || ('0' <= name[i] && name[i] <= '9'));
    }
    assert(ascii_lower(name) =~= name);
    lemma_first_word(name);
    assert(name[name.len() - 1] == name.last());
    bare_text_is_trimmed(name);
}

/// The name of a tag is read from an opening tag and from a closing tag of that
/// name.
pub proof fn name_is_read_from_its_tags(name: Seq<char>)
    requires
        is_name(name),
    ensures
        name_of_tag(start_tag(name, seq![])) == Some((false, name)),
        name_of_tag(end_tag(name)) == Some((true, name)),
{
    lemma_name_chars(name);
    let open = start_tag(name, seq![]);
    let close = end_tag(name);
    assert(open.subrange(1, open.len() - 1) =~= name);
    let slashed = close.subrange(1, close.len() - 1);
    assert(slashed =~= seq!['/'] + name);
    assert(slashed.last() == name.last());
    assert(name[name.len() - 1] == name.last());
    bare_text_is_trimmed(slashed);
    assert(without_first(slashed, '/') =~= name);
}

/// Block tags are rendered behind a prefix as they are without the prefix.
pub proof fn lemma_blocks_behind(p: Seq<char>, q: Seq<char>, stack: Seq<ListContext>, from: int)
    requires
        0 <= from <= q.len(),
    ensures
        blocks_replaced(p + q, stack, p.len() + from) == blocks_replaced(q, stack, from),
    decreases q.len() - from,
{
    let s = p + q;
    lemma_next_tag_behind(p, q, from);
    lemma_next_tag(q, from);
    assert(rest(s, p.len() + from) =~= rest(q, from));
    if let Some((start, end)) = next_tag(q, from) {
        assert(s.subrange(p.len() + from, p.len() + start) =~= q.subrange(from, start));
        assert(s.subrange(p.len() + start, p.len() + end + 1) =~= q.subrange(start, end + 1));
        lemma_blocks_behind(p, q, block_tag(q.subrange(start, end + 1), stack).1, end + 1);
    }
}

/// A tag is rendered by itself, given the lists that are open before it; the
/// rest of the document is rendered with the lists that are open after it.
pub proof fn block_tag_is_rendered(
    before: Seq<char>,
    body: Seq<char>,
    after: Seq<char>,
    stack: Seq<ListContext>,
)
    requires
        lacks(before, '<'),
        lacks(body, '>'),
    ensures
        blocks_replaced(before + (seq!['<'] + body + seq!['>']) + after, stack, 0) == before
            + block_tag(seq!['<'] + body + seq!['>'], stack).0 + blocks_replaced(
            after,
            block_tag(seq!['<'] + body + seq!['>'], stack).1,
            0,
        ),
{
    let tag = seq!['<'] + body + seq!['>'];
    let s = before + tag + after;
    let start = before.len() as int;
    let end = start + tag.len() - 1;
    lemma_find_char(s, '<', 0);
    assert(s[start] == '<');
    assert forall|i: int| 0 <= i < start implies s[i] != '<' by {
        assert(s[i] == before[i]);
    }
    assert(find_char(s, '<', 0) == Some(start));
    lemma_find_char(s, '>', start);
    assert(s[end] == '>');
    assert forall|i: int| start <= i < end implies s[i] != '>' by {
        if i > start {
            assert(s[i] == body[i - start - 1]);
        }
    }
    assert(find_char(s, '>', start) == Some(end));
    assert(s.subrange(start, end + 1) =~= tag);
    assert(s.subrange(0, start) =~= before);
    lemma_blocks_behind(before + tag, after, block_tag(tag, stack).1, 0);
}

/// The items of a list as they stand in a document.
pub open spec fn list_items(items: Seq<Seq<char>>) -> Seq<char>
    decreases items.len(),
{
    if items.len() == 0 {
        seq![]
    } else {
        start_tag("li"@, seq![]) + items[0] + end_tag("li"@) + list_items(
            items.subrange(1, items.len() as int),
        )
    }
}

/// The name of a list.
pub open spec fn list_name(ordered: bool) -> Seq<char> {
    if ordered {
        "ol"@
    } else {
        "ul"@
    }
}

/// A list as it stands in a document.
pub open spec fn list_document(ordered: bool, items: Seq<Seq<char>>) -> Seq<char> {
    start_tag(list_name(ordered), seq![]) + list_items(items) + end_tag(list_name(ordered))
}

/// Lines with the given items: numbered from `first` on in an ordered list, with
/// dashes in an unordered one.
pub open spec fn item_lines(ordered: bool, items: Seq<Seq<char>>, first: nat) -> Seq<char>
    decreases items.len(),
{
    if items.len() == 0 {
        seq![]
    } else {
        (if ordered {
            decimal(first) + ". "@
        } else {
            "- "@
        }) + items[0] + "\n"@ + item_lines(
            ordered,
            items.subrange(1, items.len() as int),
            first + 1,
        )
    }
}

/// The tags of lists have names.
pub proof fn lemma_list_names()
    ensures
        is_name("li"@),
        is_name("ol"@),
        is_name("ul"@),
{
    reveal_strlit("li");
    reveal_strlit("ol");
    reveal_strlit("ul");
}

proof fn lemma_block_tags(stack: Seq<ListContext>)
    ensures
        block_tag(start_tag("li"@, seq![]), stack) == (item_marker(stack), counted(stack)),
        block_tag(end_tag("li"@), stack) == ("\n"@, stack),
        block_tag(start_tag("ol"@, seq![]), stack) == (Seq::<char>::empty(), opened(stack, true)),
        block_tag(end_tag("ol"@), stack) == (
            Seq::<char>::empty(),
            closed(stack, true),
        ),
        block_tag(start_tag("ul"@, seq![]), stack) == (Seq::<char>::empty(), opened(stack, false)),
        block_tag(end_tag("ul"@), stack) == (
            Seq::<char>::empty(),
            closed(stack, false),
        ),
{
    lemma_list_names();
    name_is_read_from_its_tags("li"@);
    name_is_read_from_its_tags("ol"@);
    name_is_read_from_its_tags("ul"@);
    reveal_strlit("p");
    reveal_strlit("br");
    reveal_strlit("li");
    reveal_strlit("ol");
    reveal_strlit("ul");
    assert("li"@[0] != "ol"@[0] && "li"@[0] != "ul"@[0] && "li"@[0] != "br"@[0]);
    assert("ul"@[0] != "ol"@[0] && "ul"@[0] != "br"@[0] && "ol"@[0] != "br"@[0]);
}

proof fn lemma_open_rendered(
    before: Seq<char>,
    name: Seq<char>,
    after: Seq<char>,
    stack: Seq<ListContext>,
)
    requires
        lacks(before, '<'),
        is_name(name),
    ensures
        blocks_replaced(before + start_tag(name, seq![]) + after, stack, 0) == before + block_tag(
            start_tag(name, seq![]),
            stack,
        ).0 + blocks_replaced(after, block_tag(start_tag(name, seq![]), stack).1, 0),
{
    lemma_name_chars(name);
    assert(start_tag(name, seq![]) =~= seq!['<'] + name + seq!['>']);
    block_tag_is_rendered(before, name, after, stack);
}

proof fn lemma_close_rendered(
    before: Seq<char>,
    name: Seq<char>,
    after: Seq<char>,
    stack: Seq<ListContext>,
)
    requires
        lacks(before, '<'),
        is_name(name),
    ensures
        blocks_replaced(before + end_tag(name) + after, stack, 0) == before + block_tag(
            end_tag(name),
            stack,
        ).0 + blocks_replaced(after, block_tag(end_tag(name), stack).1, 0),
{
    lemma_name_chars(name);
    assert(end_tag(name) =~= seq!['<'] + (seq!['/'] + name) + seq!['>']);
    block_tag_is_rendered(before, seq!['/'] + name, after, stack);
}

/// An item becomes a line with the marker that is due in the open lists.
pub proof fn item_is_rendered(item: Seq<char>, after: Seq<char>, stack: Seq<ListContext>)
    requires
        lacks(item, '<'),
    ensures
        blocks_replaced(
            start_tag("li"@, seq![]) + item + end_tag("li"@) + after,
            stack,
            0,
        ) == item_marker(stack) + item + "\n"@ + blocks_replaced(after, counted(stack), 0),
{
    let open = start_tag("li"@, seq![]);
    let closing = item + end_tag("li"@) + after;
    lemma_list_names();
    lemma_block_tags(stack);
    lemma_block_tags(counted(stack));
    lemma_open_rendered(seq![], "li"@, closing, stack);
    lemma_close_rendered(item, "li"@, after, counted(stack));
    assert(seq![] + open + closing =~= open + item + end_tag("li"@) + after);
    assert(seq![] + item_marker(stack) + (item + "\n"@ + blocks_replaced(
        after,
        counted(stack),
        0,
    )) =~= item_marker(stack) + item + "\n"@ + blocks_replaced(after, counted(stack), 0));
}

proof fn lemma_items_rendered(
    ordered: bool,
    items: Seq<Seq<char>>,
    done: nat,
    after: Seq<char>,
    stack: Seq<ListContext>,
)
    requires
        done + items.len() < usize::MAX,
        forall|i: int| 0 <= i < items.len() ==> lacks(#[trigger] items[i], '<'),
    ensures
        blocks_replaced(list_items(items) + after, after_items(opened(stack, ordered), done), 0)
            == item_lines(ordered, items, done + 1) + blocks_replaced(
            after,
            after_items(opened(stack, ordered), done + items.len()),
            0,
        ),
    decreases items.len(),
{
    let before = after_items(opened(stack, ordered), done);
    if items.len() == 0 {
        assert(list_items(items) + after =~= after);
        assert(item_lines(ordered, items, done + 1) + blocks_replaced(after, before, 0)
            =~= blocks_replaced(after, before, 0));
    } else {
        let tail = items.subrange(1, items.len() as int);
        let next = after_items(opened(stack, ordered), done + 1);
        let last = after_items(opened(stack, ordered), done + items.len());
        let later = list_items(tail) + after;
        let item = start_tag("li"@, seq![]) + items[0] + end_tag("li"@);
        assert forall|i: int| 0 <= i < tail.len() implies lacks(#[trigger] tail[i], '<') by {
            assert(lacks(items[i + 1], '<'));
        }
        lemma_items_rendered(ordered, tail, done + 1, after, stack);
        assert(lacks(items[0], '<'));
        item_is_rendered(items[0], later, before);
        assert(item + list_items(tail) + after =~= item + later);
        assert(next == counted(before));
        if ordered {
            ordered_items_are_numbered_in_turn(stack, done);
        } else {
            unordered_items_are_dashes(stack, done);
        }
        let line = item_marker(before) + items[0] + "\n"@;
        let lines = item_lines(ordered, tail, done + 2);
        assert(item_lines(ordered, items, done + 1) == line + lines);
        assert(line + (lines + blocks_replaced(after, last, 0)) =~= (line + lines)
            + blocks_replaced(after, last, 0));
    }
}

proof fn lemma_list_opened(ordered: bool, after: Seq<char>, stack: Seq<ListContext>)
    ensures
        blocks_replaced(start_tag(list_name(ordered), seq![]) + after, stack, 0)
            == blocks_replaced(after, opened(stack, ordered), 0),
{
    let tail = blocks_replaced(after, opened(stack, ordered), 0);
    lemma_list_names();
    lemma_block_tags(stack);
    lemma_open_rendered(seq![], list_name(ordered), after, stack);
    assert(seq![] + start_tag(list_name(ordered), seq![]) + after =~= start_tag(
        list_name(ordered),
        seq![],
    ) + after);
    assert(Seq::<char>::empty() + Seq::<char>::empty() + tail =~= tail);
}

proof fn lemma_list_closed(ordered: bool, after: Seq<char>, stack: Seq<ListContext>)
    ensures
        blocks_replaced(end_tag(list_name(ordered)) + after, stack, 0) == blocks_replaced(
            after,
            closed(stack, ordered),
            0,
        ),
{
    let tail = blocks_replaced(after, closed(stack, ordered), 0);
    lemma_list_names();
    lemma_block_tags(stack);
    lemma_close_rendered(seq![], list_name(ordered), after, stack);
    assert(seq![] + end_tag(list_name(ordered)) + after =~= end_tag(list_name(ordered)) + after);
    assert(Seq::<char>::empty() + Seq::<char>::empty() + tail =~= tail);
}

/// A list becomes one line for each item: an ordered list is numbered from 1 on,
/// an unordered one has dashes. What follows the list is rendered as if the list
/// had not been there, so that an outer list goes on counting.
pub proof fn list_is_rendered(
    ordered: bool,
    items: Seq<Seq<char>>,
    after: Seq<char>,
    stack: Seq<ListContext>,
)
    requires
        items.len() < usize::MAX,
        forall|i: int| 0 <= i < items.len() ==> lacks(#[trigger] items[i], '<'),
    ensures
        blocks_replaced(list_document(ordered, items) + after, stack, 0) == item_lines(
            ordered,
            items,
            1,
        ) + blocks_replaced(after, stack, 0),
{
    let open = start_tag(list_name(ordered), seq![]);
    let close = end_tag(list_name(ordered));
    let inner = after_items(opened(stack, ordered), items.len());
    lemma_list_opened(ordered, list_items(items) + (close + after), stack);
    lemma_items_rendered(ordered, items, 0, close + after, stack);
    lemma_list_closed(ordered, after, inner);
    inner_list_leaves_outer_lists(stack, ordered, items.len());
    assert(open + (list_items(items) + (close + after)) =~= open + list_items(items) + close
        + after);
}

} // verus!
