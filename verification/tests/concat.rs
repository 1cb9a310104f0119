use flash_attn::attention::cpu::cache_concat_block;
use flash_attn::attention::{KVPage, KernelCfg, KernelReq, Strides2D};
use flash_attn::memory::locate;

const D: usize = 2;
const BS: usize = 2;

fn cfg() -> KernelCfg<u8> {
    KernelCfg { g: 1, d: D, bs: BS, scale: 0 }
}

/// Two heads of three new rows after two old ones; elements of four bytes.
/// Keys at element 0, values at 12, three pages of keys and values for two heads
/// from element 24 on: `[page][kv][row][head]`.
fn req() -> KernelReq {
    let row = Strides2D { head: 3 * 8, seq: 8 };
    KernelReq {
        q: 0,
        q_strides: row,
        k: 0,
        k_strides: row,
        v: 48,
        v_strides: row,
        pages_start: 0,
        kv_strides: Strides2D { head: 8, seq: 16 },
        o: 0,
        o_strides: row,
        mask: 0,
        n: 3,
        s: 5,
        s_ceil: 6,
    }
}

fn pages() -> Vec<KVPage> {
    (0..3).map(|i| KVPage { k: 96 + i * 64, v: 128 + i * 64 }).collect()
}

fn mem() -> Vec<u32> {
    (0..72).collect()
}

fn k_at(p: usize, head: usize) -> usize {
    24 + (p / BS) * 16 + (p % BS) * 4 + head * 2
}

fn v_at(p: usize, head: usize) -> usize {
    k_at(p, head) + 8
}

#[test]
fn new_rows_go_to_their_places() {
    let mut m = mem();
    cache_concat_block(cfg(), &pages(), &[req()], 0, 1, &mut m);
    for i in 0..3 {
        for e in 0..D {
            assert_eq!(m[k_at(2 + i, 1) + e], (6 + i * 2 + e) as u32);
            assert_eq!(m[v_at(2 + i, 1) + e], (18 + i * 2 + e) as u32);
        }
    }
}

#[test]
fn everything_else_stays() {
    let mut m = mem();
    cache_concat_block(cfg(), &pages(), &[req()], 0, 1, &mut m);
    let mut written = vec![false; 72];
    for p in 2..5 {
        for e in 0..D {
            written[k_at(p, 1) + e] = true;
            written[v_at(p, 1) + e] = true;
        }
    }
    for p in 0..72 {
        if !written[p] {
            assert_eq!(m[p], p as u32);
        }
    }
}

#[test]
fn the_request_is_the_one_asked_for() {
    let mut other = req();
    other.n = 0;
    let mut m = mem();
    cache_concat_block(cfg(), &pages(), &[req(), other], 1, 0, &mut m);
    assert_eq!(m, mem());
}

#[test]
fn pages_count_from_the_first_page_of_the_request() {
    let mut r = req();
    r.pages_start = 1;
    r.s = 4;
    let mut m = mem();
    cache_concat_block(cfg(), &pages(), &[r], 0, 0, &mut m);
    for i in 0..3 {
        assert_eq!(m[k_at(2 + 1 + i, 0)], (i * 2) as u32);
        assert_eq!(m[v_at(2 + 1 + i, 0)], (12 + i * 2) as u32);
    }
}

#[test]
fn no_rows_change_nothing_even_without_pages() {
    let mut r = req();
    r.n = 0;
    let mut m = mem();
    let c = KernelCfg { g: 1, d: D, bs: 0, scale: 0u8 };
    cache_concat_block(c, &[], &[r], 0, 0, &mut m);
    assert_eq!(m, mem());
}

#[test]
fn overlapping_rows_are_copied_element_by_element() {
    // The key row is copied one element up, so that its first element spreads.
    let r = KernelReq {
        k: 0,
        v: 40,
        kv_strides: Strides2D { head: 0, seq: 4 },
        n: 1,
        s: 1,
        ..req()
    };
    let c = KernelCfg { g: 1, d: 3, bs: 1, scale: 0u8 };
    let mut m: Vec<u32> = (0..20).collect();
    cache_concat_block(c, &[KVPage { k: 4, v: 60 }], &[r], 0, 0, &mut m);
    assert_eq!(&m[..4], &[0, 0, 0, 0]);
    assert_eq!(&m[15..18], &[10, 11, 12]);
}

#[test]
fn blocks_of_different_heads_commute() {
    let mut a = mem();
    cache_concat_block(cfg(), &pages(), &[req()], 0, 0, &mut a);
    cache_concat_block(cfg(), &pages(), &[req()], 0, 1, &mut a);
    let mut b = mem();
    cache_concat_block(cfg(), &pages(), &[req()], 0, 1, &mut b);
    cache_concat_block(cfg(), &pages(), &[req()], 0, 0, &mut b);
    assert_eq!(a, b);
    assert_ne!(a, mem());
}

#[test]
fn appending_in_parts_is_appending_at_once() {
    let mut at_once = mem();
    cache_concat_block(cfg(), &pages(), &[req()], 0, 1, &mut at_once);
    for n1 in 0..=3 {
        let first = KernelReq { n: n1, s: 2 + n1, ..req() };
        let second = KernelReq { k: n1 * 8, v: 48 + n1 * 8, n: 3 - n1, ..req() };
        let mut parts = mem();
        cache_concat_block(cfg(), &pages(), &[first], 0, 1, &mut parts);
        cache_concat_block(cfg(), &pages(), &[second], 0, 1, &mut parts);
        assert_eq!(parts, at_once);
    }
}

#[test]
fn locate_counts_elements() {
    let m = [0u64; 10];
    assert_eq!(locate(&m, 24, 16, 5), 5);
    assert_eq!(locate(&m, 24, -24, 10), 0);
    let m = [0u16; 10];
    assert_eq!(locate(&m, 6, 2, 1), 4);
}
