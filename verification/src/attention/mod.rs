//! Configuration, requests and pages of the attention kernels.
use crate::attention::block::work_len;
use vstd::prelude::*;

pub mod batch;
pub mod block;
pub mod check;
pub mod cpu;
pub mod cuda;
pub mod driver;
pub mod online;
pub mod precision;
mod tile;

verus! {

/// Shape of the attention and of the tiles that it is computed in.
#[derive(Clone, Debug)]
pub struct FlashAttnCfg {
    /// Number of query heads.
    pub h: usize,
    /// Number of key and value heads.
    pub kvh: usize,
    /// Elements of one head.
    pub d: usize,
    /// Query rows of one tile.
    pub tile_seq: usize,
    /// Cache rows of one page.
    pub tile_ctx: usize,
}

/// What the kernels read of the configuration.
#[derive(Clone, Copy, Debug)]
pub struct KernelCfg<S> {
    /// Query heads that share one key and value head.
    pub g: usize,
    /// Elements of one head.
    pub d: usize,
    /// Cache rows of one page.
    pub bs: usize,
    /// Factor of the scores.
    pub scale: S,
}

/// One page of the key and value cache: the byte addresses of its first rows.
#[derive(Clone, Copy, Debug, PartialEq, Eq, Structural)]
pub struct KVPage {
    pub k: usize,
    pub v: usize,
}

/// Byte strides of a tensor along its heads and along its rows.
#[derive(Clone, Copy, Debug, PartialEq, Eq, Structural)]
pub struct Strides2D {
    pub head: isize,
    pub seq: isize,
}

/// `x` is a value of `isize`.
pub open spec fn fits_isize(x: int) -> bool {
    isize::MIN <= x <= isize::MAX
}

impl Strides2D {
    /// The distance in bytes from the first row of the first head to row `seq`
    /// of head `head`.
    pub open spec fn at(self, head: int, seq: int) -> int {
        (head as isize) * self.head + (seq as isize) * self.seq
    }

    /// The distance, and what it is summed from, can be held in an `isize`.
    pub open spec fn fits(self, head: int, seq: int) -> bool {
        &&& fits_isize((head as isize) * self.head)
        &&& fits_isize((seq as isize) * self.seq)
        &&& fits_isize(self.at(head, seq))
    }

    /// The distance in bytes from the first row of the first head to row `seq`
    /// of head `head`.
    pub fn offset(&self, head: usize, seq: usize) -> (r: isize)
        requires
            self.fits(head as int, seq as int),
        ensures
            r == self.at(head as int, seq as int),
    {
        head as isize * self.head + seq as isize * self.seq
    }
}

/// One request: where its tensors lie and how far its sequence has come.
#[derive(Clone, Copy, Debug, PartialEq, Eq, Structural)]
pub struct KernelReq {
    /// Byte address of the queries.
    pub q: usize,
    pub q_strides: Strides2D,
    /// Byte address of the new keys.
    pub k: usize,
    pub k_strides: Strides2D,
    /// Byte address of the new values.
    pub v: usize,
    pub v_strides: Strides2D,
    /// Position of the request's first page in the list of pages.
    pub pages_start: usize,
    /// Strides within a page.
    pub kv_strides: Strides2D,
    /// Byte address of the output.
    pub o: usize,
    pub o_strides: Strides2D,
    /// Position of the request's mask in the mask memory.
    pub mask: usize,
    /// Number of query rows.
    pub n: usize,
    /// Length of the sequence, the query rows being its last.
    pub s: usize,
    /// Columns of the mask.
    pub s_ceil: usize,
}

impl FlashAttnCfg {
    /// What the kernels read of this configuration. `scale_of` gives the factor
    /// of the scores for the number of elements of one head.
    pub fn to_kernel_cfg<S, F: Fn(usize) -> S>(&self, scale_of: F) -> (cfg: KernelCfg<S>)
        requires
            self.kvh > 0,
            self.h % self.kvh == 0,
            call_requires(scale_of, (self.d,)),
        ensures
            cfg.g == self.h / self.kvh,
            cfg.d == self.d,
            cfg.bs == self.tile_ctx,
            call_ensures(scale_of, (self.d,), cfg.scale),
    {
        KernelCfg { g: self.h / self.kvh, d: self.d, bs: self.tile_ctx, scale: scale_of(self.d) }
    }

    /// Elements of the workspace of one attention block.
    pub fn shared_elements(&self) -> (r: usize)
        requires
            work_len(self.tile_seq as int, self.tile_ctx as int, self.d as int) <= usize::MAX,
        ensures
            r == work_len(self.tile_seq as int, self.tile_ctx as int, self.d as int),
    {
        let d: usize = self.d;
        let tile_seq: usize = self.tile_seq;
        let tile_ctx: usize = self.tile_ctx;
        proof {
            assert(tile_seq * d >= 0 && tile_ctx * d >= 0 && tile_seq * tile_ctx >= 0)
                by (nonlinear_arith);
        }
        // queries, outputs, keys, values, weights
        tile_seq * d + tile_seq * d + tile_ctx * d + tile_ctx * d + tile_seq * tile_ctx
    }
}

} // verus!
