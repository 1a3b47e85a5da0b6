use vstd::prelude::*;

use crate::state::FileState;

verus! {

/// One pending change of the sync: the file it comes from, the state of the
/// file when it was scanned, and the value that the pipeline carries for it.
#[derive(Debug)]
pub struct FileItemUpdate<Item> {
    pub key: String,
    pub state: FileState,
    pub sync_item: Item,
}

impl<Item> FileItemUpdate<Item> {
    /// Replaces the carried value by `f` of it, keeping the file and its state.
    pub fn map<ItemP, F: Fn(Item) -> ItemP>(self, f: &F) -> (r: FileItemUpdate<ItemP>)
        requires
            f.requires((self.sync_item,)),
        ensures
            r.key == self.key,
            r.state == self.state,
            f.ensures((self.sync_item,), r.sync_item),
    {
        FileItemUpdate { key: self.key, state: self.state, sync_item: f(self.sync_item) }
    }

    /// Replaces the carried value by `item`, keeping the file and its state.
    pub fn with_item_moved<I>(self, item: I) -> (r: FileItemUpdate<I>)
        ensures
            r.key == self.key,
            r.state == self.state,
            r.sync_item == item,
    {
        FileItemUpdate { key: self.key, state: self.state, sync_item: item }
    }
}

} // verus!
