//! The messages of a conversation with the model.
use vstd::prelude::*;

use crate::document::{Document, DocumentTree};

verus! {

/// Who says a message. `Other` is any role that this program does not know.
#[derive(Debug, Clone, Copy, PartialEq, Eq, Structural)]
pub enum Role {
    User,
    Assistant,
    Other,
}

/// A tool that the model asks to run, with its input.
pub struct ToolUse {
    pub tool_use_id: String,
    pub name: String,
    pub input: Document,
}

/// What running a tool gave.
pub struct ToolResult {
    pub tool_use_id: String,
    pub text: String,
    pub is_error: bool,
}

/// A part of a message. `Other` is any part that this program does not read.
pub enum ContentBlock {
    Text(String),
    ToolUse(ToolUse),
    ToolResult(ToolResult),
    Other,
}

pub struct Message {
    pub role: Role,
    pub content: Vec<ContentBlock>,
}

pub struct ToolUseView {
    pub tool_use_id: Seq<char>,
    pub name: Seq<char>,
    pub input: DocumentTree,
}

pub struct ToolResultView {
    pub tool_use_id: Seq<char>,
    pub text: Seq<char>,
    pub is_error: bool,
}

pub enum BlockView {
    Text(Seq<char>),
    ToolUse(ToolUseView),
    ToolResult(ToolResultView),
    Other,
}

pub struct MessageView {
    pub role: Role,
    pub content: Seq<BlockView>,
}

impl View for ToolUse {
    type V = ToolUseView;

    open spec fn view(&self) -> ToolUseView {
        ToolUseView {
            tool_use_id: self.tool_use_id@,
            name: self.name@,
            input: self.input.tree(),
        }
    }
}

impl Clone for ToolUse {
    fn clone(&self) -> (copy: Self)
        ensures
            copy@ == self@,
    {
        ToolUse {
            tool_use_id: self.tool_use_id.clone(),
            name: self.name.clone(),
            input: self.input.clone(),
        }
    }
}

impl View for ToolResult {
    type V = ToolResultView;

    open spec fn view(&self) -> ToolResultView {
        ToolResultView {
            tool_use_id: self.tool_use_id@,
            text: self.text@,
            is_error: self.is_error,
        }
    }
}

impl View for ContentBlock {
    type V = BlockView;

    open spec fn view(&self) -> BlockView {
        match self {
            ContentBlock::Text(text) => BlockView::Text(text@),
            ContentBlock::ToolUse(tool_use) => BlockView::ToolUse(tool_use@),
            ContentBlock::ToolResult(result) => BlockView::ToolResult(result@),
            ContentBlock::Other => BlockView::Other,
        }
    }
}

pub open spec fn block_views(blocks: Seq<ContentBlock>) -> Seq<BlockView> {
    blocks.map_values(|b: ContentBlock| b@)
}

impl View for Message {
    type V = MessageView;

    open spec fn view(&self) -> MessageView {
        MessageView { role: self.role, content: block_views(self.content@) }
    }
}

pub open spec fn message_views(messages: Seq<Message>) -> Seq<MessageView> {
    messages.map_values(|m: Message| m@)
}

/// The texts among the parts of a message.
pub open spec fn texts_in(blocks: Seq<BlockView>) -> Seq<Seq<char>>
    decreases blocks.len(),
{
    if blocks.len() == 0 {
        seq![]
    } else {
        match blocks.last() {
            BlockView::Text(text) => texts_in(blocks.drop_last()).push(text),
            _ => texts_in(blocks.drop_last()),
        }
    }
}

/// The texts of two rows of parts are those of the first and then those of the second; a
/// text is kept as it is, and any other part has none.
pub proof fn law_texts_are_kept_in_order(
    first: Seq<BlockView>,
    second: Seq<BlockView>,
    block: BlockView,
)
    ensures
        texts_in(Seq::empty()) == Seq::<Seq<char>>::empty(),
        texts_in(first + second) == texts_in(first) + texts_in(second),
        texts_in(seq![block]) == match block {
            BlockView::Text(text) => seq![text],
            _ => Seq::<Seq<char>>::empty(),
        },
    decreases second.len(),
{
    let all = first + second;
    if second.len() == 0 {
        assert(all =~= first);
        assert(texts_in(first) + texts_in(second) =~= texts_in(first));
    } else {
        law_texts_are_kept_in_order(first, second.drop_last(), block);
        assert(all.drop_last() =~= first + second.drop_last());
        assert(all.last() == second.last());
        assert(texts_in(all) =~= texts_in(first) + texts_in(second));
    }
    let one = seq![block];
    reveal_with_fuel(texts_in, 2);
    assert(one.drop_last() =~= Seq::empty());
    assert(texts_in(one) =~= match block {
        BlockView::Text(text) => seq![text],
        _ => Seq::<Seq<char>>::empty(),
    });
}

/// A part that is no text, put in or taken out anywhere, leaves the texts as they are; one
/// that is a text stands among them at its place.
pub proof fn law_other_parts_do_not_matter(
    before: Seq<BlockView>,
    block: BlockView,
    behind: Seq<BlockView>,
)
    ensures
        texts_in(before + seq![block] + behind) == match block {
            BlockView::Text(text) => texts_in(before) + seq![text] + texts_in(behind),
            _ => texts_in(before + behind),
        },
{
    law_texts_are_kept_in_order(before + seq![block], behind, block);
    law_texts_are_kept_in_order(before, seq![block], block);
    law_texts_are_kept_in_order(before, behind, block);
    if !(block is Text) {
        assert(texts_in(before) + Seq::<Seq<char>>::empty() =~= texts_in(before));
    }
}

/// There are texts exactly where a part is one.
pub proof fn law_texts_are_there_where_a_part_is_one(blocks: Seq<BlockView>)
    ensures
        texts_in(blocks).len() > 0 <==> exists|i: int|
            0 <= i < blocks.len() && #[trigger] blocks[i] is Text,
        texts_in(blocks).len() <= blocks.len(),
    decreases blocks.len(),
{
    if blocks.len() > 0 {
        let some = blocks.drop_last();
        law_texts_are_there_where_a_part_is_one(some);
        assert(blocks[blocks.len() - 1] == blocks.last());
        if texts_in(some).len() > 0 {
            let i = choose|i: int| 0 <= i < some.len() && #[trigger] some[i] is Text;
            assert(blocks[i] is Text);
        }
        assert forall|i: int| 0 <= i < blocks.len() && #[trigger] blocks[i] is Text implies
            texts_in(blocks).len() > 0 by {
            if i < some.len() {
                assert(some[i] is Text);
            }
        }
    }
}

}
