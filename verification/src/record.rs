use vstd::prelude::*;

verus! {

/// Mathematical model of one patch record: the destination offset (relative
/// to the variant base address) and the payload bytes to write there.
pub ghost struct RecordModel {
    pub offset: u64,
    pub data: Seq<u8>,
}

/// One contiguous write instruction: `data` is written starting at
/// `offset + base_address` in the target image.
pub struct PatchRecord {
    pub offset: u64,
    pub data: Vec<u8>,
}

impl View for PatchRecord {
    type V = RecordModel;

    open spec fn view(&self) -> RecordModel {
        RecordModel { offset: self.offset, data: self.data@ }
    }
}

/// An ordered sequence of patch records; application order is sequence order,
/// so a later record wins wherever destination ranges overlap.
pub struct PatchSet {
    pub records: Vec<PatchRecord>,
}

impl View for PatchSet {
    type V = Seq<RecordModel>;

    open spec fn view(&self) -> Seq<RecordModel> {
        self.records@.map(|i: int, r: PatchRecord| r@)
    }
}

impl PatchSet {
    /// Number of records in the set.
    pub fn len(&self) -> (n: usize)
        ensures
            n == self@.len(),
    {
        self.records.len()
    }
}

} // verus!
