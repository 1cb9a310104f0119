use flash_attn::attention::check::work_check;
use flash_attn::attention::{FlashAttnCfg, Strides2D};
use flash_attn::ceil::div_ceil;

fn cfg() -> FlashAttnCfg {
    FlashAttnCfg { h: 32, kvh: 8, d: 64, tile_seq: 3, tile_ctx: 16 }
}

#[test]
fn strides_offset_counts_heads_and_rows() {
    let s = Strides2D { head: 1024, seq: 64 };
    assert_eq!(s.offset(0, 0), 0);
    assert_eq!(s.offset(3, 5), 3392);
}

#[test]
fn strides_offset_may_run_backwards() {
    let s = Strides2D { head: -8, seq: 2 };
    assert_eq!(s.offset(3, 4), -16);
}

#[test]
fn strides_offset_wraps_heads_beyond_isize() {
    let s = Strides2D { head: 4, seq: 1 };
    assert_eq!(s.offset(usize::MAX, 10), 6);
}

#[test]
fn kernel_cfg_divides_heads_into_groups() {
    let k = cfg().to_kernel_cfg(|d: usize| (d as f32).sqrt().recip());
    assert_eq!(k.g, 4);
    assert_eq!(k.d, 64);
    assert_eq!(k.bs, 16);
    assert_eq!(k.scale, 0.125);
}

#[test]
fn scale_is_asked_for_the_head_size() {
    let k = cfg().to_kernel_cfg(|d: usize| d + 1);
    assert_eq!(k.scale, 65);
}

#[test]
fn shared_elements_counts_all_five_parts() {
    let c = FlashAttnCfg { h: 1, kvh: 1, d: 2, tile_seq: 3, tile_ctx: 4 };
    assert_eq!(c.shared_elements(), 6 + 6 + 8 + 8 + 12);
    let c = FlashAttnCfg { h: 1, kvh: 1, d: 0, tile_seq: 3, tile_ctx: 4 };
    assert_eq!(c.shared_elements(), 12);
}

#[test]
fn div_ceil_rounds_up() {
    assert_eq!(div_ceil(0, 5), 0);
    assert_eq!(div_ceil(1, 5), 1);
    assert_eq!(div_ceil(5, 5), 1);
    assert_eq!(div_ceil(6, 5), 2);
    assert_eq!(div_ceil(usize::MAX, 1), usize::MAX);
    assert_eq!(div_ceil(usize::MAX, usize::MAX), 1);
}

#[test]
fn workspace_is_checked_before_it_is_counted() {
    assert!(work_check(2, 3, 4));
    assert!(work_check(usize::MAX, 1, 0));
    assert!(!work_check(usize::MAX, 2, 0));
    assert!(!work_check(usize::MAX, 0, 1));
    assert!(!work_check(0, usize::MAX, usize::MAX));
}
