use vstd::prelude::*;
use crate::error::CustomError;
use crate::hashing::copy_bytes;
use crate::messages::block::{Block, BlockView};
use crate::states::pending_blocks_state::{is_pending, without_request, PendingBlocks};
use crate::structs::block_header::{hash_as_string, hex_upper};

verus! {

/// A file of the block store: the name under which a block is kept, which
/// is its hash in upper-case hexadecimal, and the bytes of the block.
#[derive(Debug, Clone)]
pub struct BlockFile {
    pub name: String,
    pub content: Vec<u8>,
}

/// The count after one more block, held at the largest number that fits.
pub open spec fn one_more(count: nat) -> nat {
    if count < usize::MAX {
        count + 1
    } else {
        count
    }
}

/// The store of blocks, as far as the node's decisions go: how many blocks
/// it has taken, and whether that is all the blocks that were expected. The
/// files themselves are written and read outside.
pub struct BlocksStore {
    downloaded: usize,
    synced: bool,
}

impl BlocksStore {
    /// The number of blocks taken.
    pub closed spec fn downloaded(&self) -> nat {
        self.downloaded as nat
    }

    /// Whether the blocks taken were all that were expected when the last
    /// one came.
    pub closed spec fn synced(&self) -> bool {
        self.synced
    }

    /// A store that has taken `downloaded` blocks and is not yet known to
    /// be complete.
    pub fn new(downloaded: usize) -> (store: Self)
        ensures
            store.downloaded() == downloaded,
            !store.synced(),
    {
        Self { downloaded, synced: false }
    }

    /// Takes a block: gives the file to write for it, drops the request
    /// for it, counts it, and notes whether the count has reached
    /// `total_expected`.
    pub fn append_block(
        &mut self,
        pending_blocks: &mut PendingBlocks,
        block_hash: &Vec<u8>,
        block: &Block,
        total_expected: usize,
    ) -> (file: BlockFile)
        ensures
            file.name@ == hex_upper(block_hash@),
            file.content@ == block@.serialize(),
            final(pending_blocks)@ == without_request(old(pending_blocks)@, block_hash@),
            !is_pending(final(pending_blocks)@, block_hash@),
            final(pending_blocks).wf(),
            final(self).downloaded() == one_more(old(self).downloaded()),
            final(self).synced() == (final(self).downloaded() == total_expected),
    {
        let name = hash_as_string(copy_bytes(block_hash));
        let content = block.serialize();
        let _ = pending_blocks.remove_block(block_hash);
        if self.downloaded < usize::MAX {
            self.downloaded = self.downloaded + 1;
        }
        self.synced = self.downloaded == total_expected;
        BlockFile { name, content }
    }

    /// Notes whether the count of blocks taken equals `total_expected`.
    pub fn verify_sync(&mut self, total_expected: usize)
        ensures
            final(self).downloaded() == old(self).downloaded(),
            final(self).synced() == (old(self).downloaded() == total_expected),
    {
        self.synced = self.downloaded == total_expected;
    }

    /// Whether the blocks taken were all that were expected.
    pub fn is_synced(&self) -> (synced: bool)
        ensures
            synced == self.synced(),
    {
        self.synced
    }

    /// The block that the bytes of a block file hold. `content` is what
    /// was found under the block's name: nothing when there is no such
    /// file.
    pub fn get_block(content: Option<Vec<u8>>) -> (r: Result<Block, CustomError>)
        ensures
            match content {
                None => r is Err && r->Err_0 == CustomError::BlockNotFound,
                Some(bytes) => match BlockView::parse(bytes@) {
                    Ok(block) => r is Ok && r->Ok_0@ == block,
                    Err(e) => r is Err && r->Err_0 == e,
                },
            },
    {
        match content {
            None => Err(CustomError::BlockNotFound),
            Some(bytes) => Block::parse(bytes),
        }
    }
}

} // verus!
