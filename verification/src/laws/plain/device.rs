//! The device source, the launches and the number types.
use crate::attention::cuda::{kernel_source, AttnLaunch, ConcatLaunch};
use crate::attention::precision::{
    all_of, common, distinct, precision_of, DataType, Precision, PrecisionError,
};
use crate::attention::FlashAttnCfg;
use crate::laws::plain::width;
use vstd::prelude::*;

verus! {

/// A call of `kernel_source` gives the kernels' code, whatever it is, followed by the
/// entry point `cache_concat` and then by the entry point `flash_attn`, both for
/// elements of type `t_data`, the latter computing in `t_compute`, and by nothing
/// else.
pub proof fn source_has_both_entry_points(
    code: &str,
    t_compute: &str,
    t_data: &str,
    source: String,
)
    requires
        call_ensures(kernel_source, (code, t_compute, t_data), source),
    ensures
        ({
            let concat =
                "\n\nextern \"C\" __global__ void cache_concat(\n    KernelCfg cfg,\n    KVPage<"@
                + t_data@ + "> const *cache_pages,\n    KernelReq<"@ + t_data@
                + "> const *reqs) {\n    cache_concat_block(cfg, cache_pages, reqs);\n}"@;
            let attn =
                "\n\nextern \"C\" __global__ void flash_attn(\n    KernelCfg cfg,\n    KVPage<"@
                + t_data@ + "> const *cache_pages,\n    KernelReq<"@ + t_data@
                + "> const *reqs) {\n    flash_attn_block<"@ + t_compute@
                + ">(cfg, cache_pages, reqs);\n}"@;
            let (c, a, n) = (code@.len() as int, concat.len() as int, attn.len() as int);
            &&& source@.len() == c + a + n
            &&& source@.subrange(0, c) == code@
            &&& source@.subrange(c, c + a) == concat
            &&& source@.subrange(c + a, c + a + n) == attn
        }),
{
    reveal_strlit("\n\nextern \"C\" __global__ void cache_concat(\n    KernelCfg cfg,\n    KVPage<");
    reveal_strlit("\n\nextern \"C\" __global__ void flash_attn(\n    KernelCfg cfg,\n    KVPage<");
    reveal_strlit("> const *reqs) {\n    cache_concat_block(cfg, cache_pages, reqs);\n}");
    reveal_strlit("> const *reqs) {\n    flash_attn_block<");
    reveal_strlit(">(cfg, cache_pages, reqs);\n}");
    reveal_strlit("\n\nextern \"C\" __global__ void ");
    reveal_strlit("(\n    KernelCfg cfg,\n    KVPage<");
    reveal_strlit("> const *reqs) {\n    ");
    reveal_strlit("(cfg, cache_pages, reqs);\n}");
    reveal_strlit("cache_concat");
    reveal_strlit("flash_attn");
    reveal_strlit("cache_concat_block");
    reveal_strlit("flash_attn_block<");
    reveal_strlit(">");
    let d = t_data@;
    let mid = "> const *cache_pages,\n    KernelReq<"@;
    let head = "\n\nextern \"C\" __global__ void "@;
    let open = "(\n    KernelCfg cfg,\n    KVPage<"@;
    let body = "> const *reqs) {\n    "@;
    let close = "(cfg, cache_pages, reqs);\n}"@;
    let a0 = "\n\nextern \"C\" __global__ void cache_concat(\n    KernelCfg cfg,\n    KVPage<"@;
    let b0 = "\n\nextern \"C\" __global__ void flash_attn(\n    KernelCfg cfg,\n    KVPage<"@;
    let a1 = "> const *reqs) {\n    cache_concat_block(cfg, cache_pages, reqs);\n}"@;
    let b1 = "> const *reqs) {\n    flash_attn_block<"@;
    let b2 = ">(cfg, cache_pages, reqs);\n}"@;
    assert(a0 =~= head + "cache_concat"@ + open);
    assert(b0 =~= head + "flash_attn"@ + open);
    assert(a1 =~= body + "cache_concat_block"@ + close);
    assert(b1 =~= body + "flash_attn_block<"@);
    assert(b2 =~= ">"@ + close);
    let concat = a0 + d + mid + d + a1;
    let attn = b0 + d + mid + d + b1 + t_compute@ + b2;
    assert(concat =~= head + "cache_concat"@ + open + d + mid + d + body + "cache_concat_block"@
        + close);
    assert(attn =~= head + "flash_attn"@ + open + d + mid + d + body + ("flash_attn_block<"@
        + t_compute@ + ">"@) + close);
    assert(source@ =~= code@ + concat + attn);
    let c = code@.len() as int;
    let a = concat.len() as int;
    let n = attn.len() as int;
    assert(source@.subrange(0, c) =~= code@);
    assert(source@.subrange(c, c + a) =~= concat);
    assert(source@.subrange(c + a, c + a + n) =~= attn);
}

/// A call of `concat_launch` asks for one grid item per request and one thread per key
/// and value head and element, without shared memory.
pub proof fn concat_launch_is_per_element(cfg: &FlashAttnCfg, count: usize, r: ConcatLaunch)
    requires
        call_ensures(FlashAttnCfg::concat_launch, (cfg, count), r),
    ensures
        r.grid == count as u32,
        r.block.0 == cfg.kvh as u32,
        r.block.1 == cfg.d as u32,
        r.shared == 0,
        count <= u32::MAX ==> r.grid == count,
        cfg.kvh <= u32::MAX ==> r.block.0 == cfg.kvh,
        cfg.d <= u32::MAX ==> r.block.1 == cfg.d,
{
}

/// A call of `attn_launch` asks for one grid item per request and query head, one
/// thread per row of a tile, and as many bytes of shared memory as the workspace has:
/// two tiles of query rows, two pages, and the weights of a tile on a page.
pub proof fn attn_launch_is_per_row<T>(cfg: &FlashAttnCfg, count: usize, r: AttnLaunch)
    requires
        call_ensures(FlashAttnCfg::attn_launch::<T>, (cfg, count), r),
    ensures
        r.grid.0 == count as u32,
        r.grid.1 == cfg.h as u32,
        r.block == cfg.tile_seq as u32,
        count <= u32::MAX ==> r.grid.0 == count,
        cfg.h <= u32::MAX ==> r.grid.1 == cfg.h,
        cfg.tile_seq <= u32::MAX ==> r.block == cfg.tile_seq,
        r.shared == (2 * (cfg.tile_seq * cfg.d) + 2 * (cfg.tile_ctx * cfg.d) + cfg.tile_seq
            * cfg.tile_ctx) * width::<T>(),
{
}

/// `concat_launch` can always be called, `attn_launch` whenever the bytes of the
/// workspace can be counted.
pub proof fn launches_can_be_called<T>(cfg: &FlashAttnCfg, count: usize)
    ensures
        call_requires(FlashAttnCfg::concat_launch, (cfg, count)),
        ({
            let n = 2 * (cfg.tile_seq * cfg.d) + 2 * (cfg.tile_ctx * cfg.d) + cfg.tile_seq
                * cfg.tile_ctx;
            n <= usize::MAX && n * width::<T>() <= usize::MAX ==> call_requires(
                FlashAttnCfg::attn_launch::<T>,
                (cfg, count),
            )
        }),
{
}

/// A call of `distinct` gives a type exactly if there are tensors and all have that
/// type.
pub proof fn distinct_is_the_common_type(
    dts: &[DataType],
    r: Option<DataType>,
    dt: DataType,
)
    requires
        call_ensures(distinct, (dts,), r),
    ensures
        r == Some(dt) <==> dts@.len() > 0 && forall|i: int|
            0 <= i < dts@.len() ==> #[trigger] dts@[i] == dt,
        r is None <==> dts@.len() == 0 || exists|i: int, j: int|
            0 <= i < dts@.len() && 0 <= j < dts@.len() && #[trigger] dts@[i] != #[trigger] dts@[j],
{
    assert(common(dts@, r));
    use_types(dts@, dt);
    if r is Some {
        let x = r->0;
        use_types(dts@, x);
        assert(all_of(dts@, x));
        assert(dts@[0] == x);
    } else if dts@.len() > 0 {
        use_types(dts@, dts@[0]);
        assert(!all_of(dts@, dt));
        assert(!all_of(dts@, dts@[0]));
        let i = choose|i: int| 0 <= i < dts@.len() && #[trigger] dts@[i] != dts@[0];
        assert(dts@[i] != dts@[0]);
    }
}

proof fn use_types(dts: Seq<DataType>, dt: DataType)
    ensures
        all_of(dts, dt) <==> dts.len() > 0 && forall|i: int|
            0 <= i < dts.len() ==> #[trigger] dts[i] == dt,
{
}

/// A call of `precision_of` computes `f32` in single and `f64` in double precision,
/// and refuses tensors of no or of different types, and of one other type.
pub proof fn precision_follows_the_common_type(
    dts: &[DataType],
    r: Result<Precision, PrecisionError>,
    code: u64,
)
    requires
        call_ensures(precision_of, (dts,), r),
    ensures
        r == Ok::<Precision, PrecisionError>(Precision::Single) <==> dts@.len() > 0 && forall|i: int|
            0 <= i < dts@.len() ==> #[trigger] dts@[i] == DataType::F32,
        r == Ok::<Precision, PrecisionError>(Precision::Double) <==> dts@.len() > 0 && forall|i: int|
            0 <= i < dts@.len() ==> #[trigger] dts@[i] == DataType::F64,
        r == Err::<Precision, PrecisionError>(PrecisionError::NotDistinct) <==> dts@.len() == 0
            || exists|i: int|
            0 <= i < dts@.len() && #[trigger] dts@[i] != dts@[0],
        r == Err::<Precision, PrecisionError>(PrecisionError::Unsupported(DataType::Other(code)))
            <==> dts@.len() > 0 && forall|i: int|
            0 <= i < dts@.len() ==> #[trigger] dts@[i] == DataType::Other(code),
{
    use_types(dts@, DataType::F32);
    use_types(dts@, DataType::F64);
    if dts@.len() > 0 {
        use_types(dts@, dts@[0]);
        assert forall|dt: DataType| all_of(dts@, dt) implies dt
            == dts@[0] by {
            use_types(dts@, dt);
        }
    }
    use_types(dts@, DataType::Other(code));
}

/// Single precision is called `float` on the device, double precision `double`, and
/// all of these functions can always be called.
pub proof fn precisions_have_device_names(
    p: Precision,
    name: &'static str,
    dts: &[DataType],
    code: &str,
    t_compute: &str,
    t_data: &str,
)
    ensures
        call_ensures(Precision::device_name, (&Precision::Single,), name) ==> name@ == "float"@,
        call_ensures(Precision::device_name, (&Precision::Double,), name) ==> name@ == "double"@,
        call_requires(Precision::device_name, (&p,)),
        call_requires(distinct, (dts,)),
        call_requires(precision_of, (dts,)),
        call_requires(kernel_source, (code, t_compute, t_data)),
{
}

} // verus!
