//! Addresses of fixed-size blocks in named files.
use vstd::prelude::*;

verus! {

/// One fixed-size slot of one file: its name and its position.
#[derive(Debug, Clone)]
pub struct BlockId {
    file_name: String,
    pub block_number: usize,
}

impl View for BlockId {
    type V = (Seq<char>, nat);

    closed spec fn view(&self) -> (Seq<char>, nat) {
        (self.file_name@, self.block_number as nat)
    }
}

impl PartialEq for BlockId {
    fn eq(&self, other: &BlockId) -> (r: bool) {
        self.block_number == other.block_number && self.file_name == other.file_name
    }
}

impl vstd::std_specs::cmp::PartialEqSpecImpl for BlockId {
    open spec fn obeys_eq_spec() -> bool {
        true
    }

    open spec fn eq_spec(&self, other: &BlockId) -> bool {
        self@ == other@
    }
}

impl Eq for BlockId {}

impl BlockId {
    pub fn new(file_name: &str, block_number: usize) -> (r: BlockId)
        ensures
            r@ == (file_name@, block_number as nat),
    {
        BlockId { file_name: file_name.to_owned(), block_number }
    }

    /// Byte position of the block in its file.
    pub fn starting_offset(&self, block_size: usize) -> (r: i64)
        requires
            block_size * self@.1 <= i64::MAX,
        ensures
            r == block_size * self@.1,
    {
        proof {
            assert(block_size as i64 * self.block_number as i64 == block_size * self.block_number) by (nonlinear_arith)
                requires block_size * self.block_number <= i64::MAX, block_size >= 0, self.block_number >= 0;
        }
        block_size as i64 * self.block_number as i64
    }

    pub fn file_name(&self) -> (r: &str)
        ensures
            r@ == self@.0,
    {
        self.file_name.as_str()
    }

    /// The block just before this one in the same file; none before block 0.
    pub fn previous(&self) -> (r: Option<BlockId>)
        ensures
            self@.1 == 0 ==> r is None,
            self@.1 > 0 ==> r is Some && r->Some_0@ == (self@.0, (self@.1 - 1) as nat),
    {
        if self.block_number == 0 {
            None
        } else {
            Some(BlockId::new(self.file_name.as_str(), self.block_number - 1))
        }
    }

    /// The same block id, as a new value.
    pub fn duplicate(&self) -> (r: BlockId)
        ensures
            r@ == self@,
    {
        BlockId::new(self.file_name.as_str(), self.block_number)
    }
}

} // verus!
