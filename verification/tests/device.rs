use flash_attn::attention::cuda::{kernel_source, AttnLaunch, ConcatLaunch};
use flash_attn::attention::precision::DataType::{Other, F32, F64};
use flash_attn::attention::precision::{
    distinct, precision_of, Precision, PrecisionError,
};
use flash_attn::attention::FlashAttnCfg;

#[test]
fn source_has_both_entry_points() {
    let source = kernel_source("// kernels", "float", "half");
    let want = "// kernels

extern \"C\" __global__ void cache_concat(
    KernelCfg cfg,
    KVPage<half> const *cache_pages,
    KernelReq<half> const *reqs) {
    cache_concat_block(cfg, cache_pages, reqs);
}

extern \"C\" __global__ void flash_attn(
    KernelCfg cfg,
    KVPage<half> const *cache_pages,
    KernelReq<half> const *reqs) {
    flash_attn_block<float>(cfg, cache_pages, reqs);
}";
    assert_eq!(source, want);
}

#[test]
fn launches_follow_the_configuration() {
    let c = FlashAttnCfg { h: 8, kvh: 2, d: 64, tile_seq: 16, tile_ctx: 32 };
    assert_eq!(c.concat_launch(3), ConcatLaunch { grid: 3, block: (2, 64), shared: 0 });
    let elements = 2 * 16 * 64 + 2 * 32 * 64 + 16 * 32;
    assert_eq!(
        c.attn_launch::<f32>(3),
        AttnLaunch { grid: (3, 8), block: 16, shared: elements * 4 }
    );
    assert_eq!(c.attn_launch::<f64>(3).shared, elements * 8);
}

#[test]
fn launch_counts_are_cut_to_their_type() {
    let c = FlashAttnCfg { h: 1 << 33, kvh: 1, d: 1, tile_seq: 1, tile_ctx: 1 };
    assert_eq!(c.attn_launch::<u8>((1 << 32) + 5).grid, (5, 0));
}

#[test]
fn precision_follows_the_common_type() {
    assert_eq!(precision_of(&[F32, F32]), Ok(Precision::Single));
    assert_eq!(precision_of(&[F64]), Ok(Precision::Double));
    assert_eq!(precision_of(&[F32, F64]), Err(PrecisionError::NotDistinct));
    assert_eq!(precision_of(&[]), Err(PrecisionError::NotDistinct));
    assert_eq!(precision_of(&[Other(5), Other(5)]), Err(PrecisionError::Unsupported(Other(5))));
    assert_eq!(precision_of(&[Other(5), Other(6)]), Err(PrecisionError::NotDistinct));
    assert_eq!(distinct(&[Other(5), Other(5)]), Some(Other(5)));
    assert_eq!(distinct(&[F32, F32, F64]), None);
}

#[test]
fn precision_has_a_device_name() {
    assert_eq!(Precision::Single.device_name(), "float");
    assert_eq!(Precision::Double.device_name(), "double");
}
