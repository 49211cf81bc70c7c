//! The chat item: a timestamp paired with an opaque serialized payload.

use vstd::prelude::*;

verus! {

/// Mathematical model of an [`Item`]: an instant in epoch milliseconds
/// and the payload text.
pub ghost struct ItemModel {
    pub ts: int,
    pub content: Seq<char>,
}

/// One chat message as served to clients: `ts` is the instant the line
/// was recorded, in UTC epoch milliseconds; `content` is the serialized
/// payload exactly as it stands in the log, never interpreted here.
#[derive(Debug)]
pub struct Item {
    pub ts: i64,
    pub content: String,
}

impl View for Item {
    type V = ItemModel;

    open spec fn view(&self) -> ItemModel {
        ItemModel { ts: self.ts as int, content: self.content@ }
    }
}

impl DeepView for Item {
    type V = ItemModel;

    open spec fn deep_view(&self) -> ItemModel {
        self.view()
    }
}

impl crate::merge::SortKeyed for Item {
    open spec fn key_spec(&self) -> i64 {
        self.ts
    }

    fn key(&self) -> (k: i64)
        ensures
            k == self.key_spec(),
    {
        self.ts
    }
}

impl Clone for Item {
    fn clone(&self) -> (r: Self)
        ensures
            r@ == self@,
    {
        Item { ts: self.ts, content: self.content.clone() }
    }
}

} // verus!
