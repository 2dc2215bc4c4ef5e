//! Weight-storage dtypes.

use vstd::prelude::*;

verus! {

/// Owning weight storage.
#[derive(Debug)]
pub enum WeightStorage {
    /// Single precision, by encoding.
    F32(Vec<u32>),
    /// Half precision, by encoding.
    F16(Vec<u16>),
    /// Quantized.
    I8(I8Block),
}

/// Quantized weights.
#[derive(Debug)]
pub struct I8Block {
    pub qweight: Vec<i8>,
    /// Per-column scales (encoder) or per-row scales (decoder), by encoding.
    pub scales: Vec<u32>,
    /// Symmetric quantization stores `None`; asymmetric stores zero points.
    pub zeros: Option<Vec<i8>>,
}

impl WeightStorage {
    /// The number of bytes that the weights take.
    pub open spec fn size(&self) -> nat {
        match *self {
            WeightStorage::F32(b) => 4 * b@.len(),
            WeightStorage::F16(b) => 2 * b@.len(),
            WeightStorage::I8(blk) => blk.qweight@.len() + 4 * blk.scales@.len() + (
            match blk.zeros {
                Some(z) => z@.len(),
                None => 0,
            }),
        }
    }

    /// The number of bytes that the weights take.
    pub fn nbytes(&self) -> (res: usize)
        requires
            self.size() <= usize::MAX,
        ensures
            res == self.size(),
            *self matches WeightStorage::F32(b) ==> res == 4 * b@.len(),
            *self matches WeightStorage::F16(b) ==> res == 2 * b@.len(),
            *self matches WeightStorage::I8(blk) ==> res == blk.qweight@.len() + 4 * blk.scales@.len()
                + (match blk.zeros {
                Some(z) => z@.len() as int,
                None => 0,
            }),
    {
        match self {
            WeightStorage::F32(b) => b.len() * 4,
            WeightStorage::F16(b) => b.len() * 2,
            WeightStorage::I8(blk) => {
                let zeros: usize = match &blk.zeros {
                    Some(z) => z.len(),
                    None => 0,
                };
                blk.qweight.len() + blk.scales.len() * 4 + zeros
            },
        }
    }
}

} // verus!
