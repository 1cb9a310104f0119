//! What a device needs to run the kernels: their source and their launches.
use crate::attention::block::work_len;
use crate::attention::FlashAttnCfg;
use vstd::prelude::*;
use vstd::string::*;

verus! {

/// A device function `name` on elements of type `t_data` that calls `callee`.
pub open spec fn entry_spec(name: Seq<char>, t_data: Seq<char>, callee: Seq<char>) -> Seq<char> {
    "\n\nextern \"C\" __global__ void "@ + name + "(\n    KernelCfg cfg,\n    KVPage<"@ + t_data
        + "> const *cache_pages,\n    KernelReq<"@ + t_data + "> const *reqs) {\n    "@ + callee
        + "(cfg, cache_pages, reqs);\n}"@
}

/// The device source: the kernels `code`, followed by their entry points for
/// elements of type `t_data`, with attention computed in `t_compute`.
pub open spec fn kernel_source_spec(
    code: Seq<char>,
    t_compute: Seq<char>,
    t_data: Seq<char>,
) -> Seq<char> {
    code + entry_spec("cache_concat"@, t_data, "cache_concat_block"@) + entry_spec(
        "flash_attn"@,
        t_data,
        "flash_attn_block<"@ + t_compute + ">"@,
    )
}

/// Appends a device function to `code`.
fn push_entry(code: &mut String, name: &str, t_data: &str, callee: &str)
    ensures
        final(code)@ == old(code)@ + entry_spec(name@, t_data@, callee@),
{
    code.append("\n\nextern \"C\" __global__ void ");
    code.append(name);
    code.append("(\n    KernelCfg cfg,\n    KVPage<");
    code.append(t_data);
    code.append("> const *cache_pages,\n    KernelReq<");
    code.append(t_data);
    code.append("> const *reqs) {\n    ");
    code.append(callee);
    code.append("(cfg, cache_pages, reqs);\n}");
    assert(code@ =~= old(code)@ + entry_spec(name@, t_data@, callee@));
}

/// The device source: the kernels `code`, followed by their entry points for
/// elements of type `t_data`, with attention computed in `t_compute`.
pub fn kernel_source(code: &str, t_compute: &str, t_data: &str) -> (source: String)
    ensures
        source@ == kernel_source_spec(code@, t_compute@, t_data@),
{
    let mut source: String = String::from_str(code);
    push_entry(&mut source, "cache_concat", t_data, "cache_concat_block");
    let mut callee: String = String::from_str("flash_attn_block<");
    callee.append(t_compute);
    callee.append(">");
    push_entry(&mut source, "flash_attn", t_data, callee.as_str());
    source
}

/// How `cache_concat` is launched.
#[derive(Clone, Copy, Debug, PartialEq, Eq)]
pub struct ConcatLaunch {
    pub grid: u32,
    pub block: (u32, u32),
    /// Bytes of shared memory.
    pub shared: usize,
}

/// How `flash_attn` is launched.
#[derive(Clone, Copy, Debug, PartialEq, Eq)]
pub struct AttnLaunch {
    pub grid: (u32, u32),
    pub block: u32,
    /// Bytes of shared memory.
    pub shared: usize,
}

impl FlashAttnCfg {
    /// The launch that takes the new keys and values of `count` requests into
    /// their caches: one grid item per request, one thread per head and element.
    pub fn concat_launch(&self, count: usize) -> (r: ConcatLaunch)
        ensures
            r.grid == count as u32,
            r.block == (self.kvh as u32, self.d as u32),
            r.shared == 0,
    {
        ConcatLaunch {
            grid: #[verifier::truncate] (count as u32),
            block: (
                #[verifier::truncate] (self.kvh as u32),
                #[verifier::truncate] (self.d as u32),
            ),
            shared: 0,
        }
    }

    /// The launch that computes the attention of `count` requests on elements
    /// of type `T`: one grid item per request and head, one thread per query
    /// row of a tile, and the workspace of a block in shared memory.
    pub fn attn_launch<T>(&self, count: usize) -> (r: AttnLaunch)
        requires
            work_len(self.tile_seq as int, self.tile_ctx as int, self.d as int) <= usize::MAX,
            work_len(self.tile_seq as int, self.tile_ctx as int, self.d as int)
                * vstd::layout::size_of::<T>() <= usize::MAX,
        ensures
            r.grid == (count as u32, self.h as u32),
            r.block == self.tile_seq as u32,
            r.shared == work_len(self.tile_seq as int, self.tile_ctx as int, self.d as int)
                * vstd::layout::size_of::<T>(),
    {
        AttnLaunch {
            grid: (
                #[verifier::truncate] (count as u32),
                #[verifier::truncate] (self.h as u32),
            ),
            block: #[verifier::truncate] (self.tile_seq as u32),
            shared: self.shared_elements() * std::mem::size_of::<T>(),
        }
    }
}

} // verus!
