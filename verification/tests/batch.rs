use any_tensor::digit_layout::types;
use any_tensor::Tensor;
use flash_attn::attention::batch::{blocks, causal_mask, page_table, Attention, TensorView};
use flash_attn::attention::check::{attn_check, concat_check, row_check};
use flash_attn::attention::{FlashAttnCfg, KVPage, KernelCfg, Strides2D};
use flash_attn::scalar::Scalar;

#[derive(Clone, Copy, Debug, PartialEq)]
struct R(f32);

impl Scalar for R {
    fn zero() -> Self {
        R(0.0)
    }
    fn neg_infinity() -> Self {
        R(f32::NEG_INFINITY)
    }
    fn empty_sum() -> Self {
        R(std::iter::empty::<f32>().sum())
    }
    fn plus(self, rhs: Self) -> Self {
        R(self.0 + rhs.0)
    }
    fn minus(self, rhs: Self) -> Self {
        R(self.0 - rhs.0)
    }
    fn times(self, rhs: Self) -> Self {
        R(self.0 * rhs.0)
    }
    fn over(self, rhs: Self) -> Self {
        R(self.0 / rhs.0)
    }
    fn exp(self) -> Self {
        R(self.0.exp())
    }
    fn exceeds(self, rhs: Self) -> bool {
        self.0 > rhs.0
    }
}

const H: usize = 4;
const KVH: usize = 2;
const D: usize = 2;
const CTX: usize = 8;

fn view<const N: usize>(base: usize, shape: [usize; N]) -> TensorView {
    let t = Tensor::<usize, N>::new(types::F32, shape);
    TensorView {
        base,
        shape: t.shape().to_vec(),
        strides: t.strides().to_vec(),
        offset: t.offset(),
    }
}

/// A request of `n` new rows after `pos`, its tensors one after the other from
/// element `at` on, and the element after them.
fn request(at: usize, n: usize, pos: usize) -> (Attention, usize) {
    let q = at;
    let k = q + H * n * D;
    let v = k + KVH * n * D;
    let o = v + KVH * n * D;
    let cache = o + H * n * D;
    let req = Attention {
        q: view(q * 4, [H, n, D]),
        k: view(k * 4, [KVH, n, D]),
        v: view(v * 4, [KVH, n, D]),
        o: view(o * 4, [H, n, D]),
        cache: view(cache * 4, [CTX, 2, KVH, D]),
        pos,
    };
    (req, cache + CTX * 2 * KVH * D)
}

fn cfg(tile_seq: usize, tile_ctx: usize) -> FlashAttnCfg {
    FlashAttnCfg { h: H, kvh: KVH, d: D, tile_seq, tile_ctx }
}

fn memory(len: usize) -> Vec<R> {
    (0..len).map(|i| R(((i * 29 + 7) % 53) as f32 / 26.0 - 1.0)).collect()
}

#[test]
fn mask_lets_each_row_see_up_to_itself() {
    let m = causal_mask(2, 3, 4);
    assert_eq!(m, [true, true, false, false, true, true, true, false]);
    assert!(causal_mask(0, 5, 8).is_empty());
    assert!(causal_mask(0, 0, 0).is_empty());
}

#[test]
fn page_is_found_through_the_layout() {
    let t = view(100, [CTX, 2, KVH, D]);
    assert_eq!(t.strides, [32, 16, 8, 4]);
    assert_eq!(t.page(0), KVPage { k: 100, v: 116 });
    assert_eq!(t.page(3), KVPage { k: 196, v: 212 });
    let t = TensorView { base: 1000, shape: vec![3, 2], strides: vec![-8, 3], offset: 20 };
    assert_eq!(t.page(2), KVPage { k: 1004, v: 1007 });
}

#[test]
fn strides_are_picked_by_axis() {
    let t = view(0, [H, 3, D]);
    assert_eq!(t.strides2d(), Strides2D { head: 24, seq: 8 });
    let t = view(0, [CTX, 2, KVH, D]);
    assert_eq!(t.cache_strides(), Strides2D { head: 8, seq: 32 });
}

#[test]
fn page_table_lists_request_after_request() {
    let (a, end) = request(0, 2, 3);
    let (b, _) = request(end, 1, 0);
    let pages = page_table(&[a.clone(), b.clone()], 2);
    assert_eq!(pages.len(), 4);
    assert_eq!(pages[0], a.cache.page(0));
    assert_eq!(pages[2], a.cache.page(4));
    assert_eq!(pages[3], b.cache.page(0));
}

#[test]
fn prepare_describes_each_request() {
    let (a, end) = request(0, 2, 3);
    let (b, _) = request(end, 1, 0);
    let batch = cfg(2, 4).prepare(&[a.clone(), b.clone()]);
    assert_eq!(batch.pages.len(), 3);
    assert_eq!(batch.masks.len(), 2 * 8 + 4);
    assert_eq!(&batch.masks[..8], &causal_mask(2, 5, 8)[..8]);
    assert_eq!(&batch.masks[16..], &[true, false, false, false]);
    let r = &batch.reqs[0];
    assert_eq!((r.n, r.s, r.s_ceil, r.mask, r.pages_start), (2, 5, 8, 0, 0));
    assert_eq!((r.q, r.k, r.v, r.o), (a.q.base, a.k.base, a.v.base, a.o.base));
    assert_eq!(r.kv_strides, Strides2D { head: 8, seq: 32 });
    assert_eq!(r.q_strides, Strides2D { head: 16, seq: 8 });
    let r = &batch.reqs[1];
    assert_eq!((r.n, r.s, r.s_ceil, r.mask, r.pages_start), (1, 1, 4, 16, 0));
}

#[test]
fn blocks_are_pairs_in_order() {
    assert_eq!(blocks(2, 3), [(0, 0), (0, 1), (0, 2), (1, 0), (1, 1), (1, 2)]);
    assert!(blocks(0, 3).is_empty());
    assert!(blocks(3, 0).is_empty());
}

/// Causal attention over the old cache rows and the new rows.
fn expected(m: &[R], req: &Attention, head: usize, iq: usize) -> Vec<f32> {
    let n = req.q.shape[1];
    let kv = head / (H / KVH);
    let at = |t: &TensorView, h: usize, r: usize, e: usize| m[t.base / 4 + (h * n + r) * D + e].0;
    let row = |new: &TensorView, which: usize, p: usize, e: usize| {
        if p < req.pos {
            m[req.cache.base / 4 + ((p * 2 + which) * KVH + kv) * D + e].0
        } else {
            at(new, kv, p - req.pos, e)
        }
    };
    let w: Vec<f32> = (0..=req.pos + iq)
        .map(|p| {
            let dot: f32 = (0..D).map(|e| at(&req.q, head, iq, e) * row(&req.k, 0, p, e)).sum();
            (dot / (D as f32).sqrt()).exp()
        })
        .collect();
    let total: f32 = w.iter().sum();
    (0..D)
        .map(|e| w.iter().enumerate().map(|(p, w)| w * row(&req.v, 1, p, e)).sum::<f32>() / total)
        .collect()
}

#[test]
fn batch_computes_causal_attention_with_cache() {
    for tile_ctx in [1, 2, 4, 8] {
        for tile_seq in [1, 2, 4] {
            let (req, end) = request(0, 3, 4);
            let before = memory(end);
            let mut m = before.clone();
            let c = cfg(tile_seq, tile_ctx);
            let scale = R((D as f32).sqrt().recip());
            c.compute_cpu(scale, &[req.clone()], &mut m);
            for head in 0..H {
                for iq in 0..3 {
                    let want = expected(&before, &req, head, iq);
                    for e in 0..D {
                        let got = m[req.o.base / 4 + (head * 3 + iq) * D + e].0;
                        assert!((want[e] - got).abs() < 1e-5, "{want:?} {got}");
                    }
                }
            }
            // the new rows are in the cache
            for i in 0..3 {
                for kv in 0..KVH {
                    for e in 0..D {
                        let p = 4 + i;
                        let k = before[req.k.base / 4 + (kv * 3 + i) * D + e];
                        let v = before[req.v.base / 4 + (kv * 3 + i) * D + e];
                        let c = req.cache.base / 4;
                        assert_eq!(m[c + (p * 2 * KVH + kv) * D + e], k);
                        assert_eq!(m[c + ((p * 2 + 1) * KVH + kv) * D + e], v);
                    }
                }
            }
        }
    }
}

#[test]
fn later_rows_do_not_matter() {
    let (req, end) = request(0, 4, 3);
    let mut a = memory(end);
    let mut b = memory(end);
    // rows from 2 on of queries, keys and values, and the cache from place 5 on
    for (t, heads) in [(&req.q, H), (&req.k, KVH), (&req.v, KVH)] {
        for head in 0..heads {
            for i in 2..4 {
                b[t.base / 4 + (head * 4 + i) * D] = R(9.0);
            }
        }
    }
    for x in &mut b[req.cache.base / 4 + 5 * 2 * KVH * D..] {
        *x = R(-2.0);
    }
    cfg(3, 2).compute_cpu(R(0.5), &[req.clone()], &mut a);
    cfg(3, 2).compute_cpu(R(0.5), &[req.clone()], &mut b);
    for head in 0..H {
        let o = req.o.base / 4 + head * 4 * D;
        assert_eq!(a[o..o + 2 * D], b[o..o + 2 * D]);
        assert_ne!(a[o + 2 * D..o + 4 * D], b[o + 2 * D..o + 4 * D]);
    }
}

/// The tensor of the rows of `t` from `from` on, `n` of them.
fn rows_of(t: &TensorView, from: usize, n: usize) -> TensorView {
    let mut part = t.clone();
    part.base += from * D * 4;
    part.shape[1] = n;
    part
}

#[test]
fn computing_in_parts_is_computing_at_once() {
    for tile_ctx in [1, 2, 4, 8] {
        for n1 in 0..=4 {
            let (req, end) = request(0, 4, 3);
            let part = |from: usize, n: usize| Attention {
                q: rows_of(&req.q, from, n),
                k: rows_of(&req.k, from, n),
                v: rows_of(&req.v, from, n),
                o: rows_of(&req.o, from, n),
                cache: req.cache.clone(),
                pos: req.pos + from,
            };
            let c = cfg(2, tile_ctx);
            let mut at_once = memory(end);
            c.compute_cpu(R(0.5), &[req.clone()], &mut at_once);
            let mut parts = memory(end);
            assert!(c.try_compute_cpu(R(0.5), &[part(0, n1)], &mut parts));
            assert!(c.try_compute_cpu(R(0.5), &[part(n1, 4 - n1)], &mut parts));
            assert_eq!(parts, at_once);
        }
    }
}

#[test]
fn guarded_computation_does_the_same() {
    let (req, end) = request(0, 3, 4);
    let mut a = memory(end);
    let mut b = memory(end);
    cfg(2, 4).compute_cpu(R(0.5), &[req.clone()], &mut a);
    assert!(cfg(2, 4).try_compute_cpu(R(0.5), &[req], &mut b));
    assert_eq!(a, b);
    assert_ne!(a, memory(end));
}

fn refused(c: FlashAttnCfg, req: Attention, len: usize) -> bool {
    let mut m = memory(len);
    let done = c.try_compute_cpu(R(0.5), &[req], &mut m);
    assert_eq!(m == memory(len), !done);
    !done
}

#[test]
fn what_cannot_be_computed_is_refused() {
    let (req, end) = request(0, 3, 4);
    assert!(!refused(cfg(2, 4), req.clone(), end));
    // heads that do not divide
    assert!(refused(FlashAttnCfg { kvh: 3, ..cfg(2, 4) }, req.clone(), end));
    assert!(refused(FlashAttnCfg { kvh: 0, ..cfg(2, 4) }, req.clone(), end));
    // no tiles
    assert!(refused(cfg(0, 4), req.clone(), end));
    assert!(refused(cfg(2, 0), req.clone(), end));
    // a workspace beyond counting
    assert!(refused(cfg(usize::MAX, 4), req.clone(), end));
    // a memory too short
    assert!(refused(cfg(2, 4), req.clone(), end - 1));
    // a cache without the row at which a page starts
    let mut r = req.clone();
    r.pos = 8;
    assert!(refused(cfg(2, 4), r, end));
    // more heads than there is memory for
    assert!(refused(FlashAttnCfg { h: 4000, ..cfg(2, 4) }, req.clone(), end));
    // tensors of other dimensions
    let mut r = req.clone();
    r.o.strides.push(1);
    assert!(refused(cfg(2, 4), r, end));
    // an address between two elements
    let mut r = req.clone();
    r.q.base += 1;
    assert!(refused(cfg(2, 4), r, end));
    // a sequence beyond counting
    let mut r = req;
    r.pos = usize::MAX;
    assert!(refused(cfg(2, 4), r, end));
}

#[test]
fn an_empty_batch_asks_for_little() {
    let mut m = memory(3);
    assert!(cfg(0, 0).try_compute_cpu(R(0.5), &[], &mut m));
    assert_eq!(m, memory(3));
}

#[test]
fn rows_are_checked_against_the_memory() {
    let m = [0u32; 10];
    let s = Strides2D { head: 8, seq: -4 };
    assert!(row_check(&m, 8, &s, 2, 1, 5));
    assert!(!row_check(&m, 8, &s, 2, 1, 6));
    assert!(!row_check(&m, 9, &s, 2, 1, 1));
    assert!(row_check(&m, 8, &s, 0, 2, 10));
    assert!(!row_check(&m, 8, &s, 0, 3, 1));
    assert!(!row_check(&m, 0, &Strides2D { head: isize::MAX, seq: 0 }, 2, 0, 0));
    assert!(!row_check(&[(); 3], 0, &s, 0, 0, 1));
}

#[test]
fn blocks_are_checked_one_by_one() {
    let (req, end) = request(0, 3, 4);
    let batch = cfg(2, 4).prepare(&[req]);
    let m = memory(end);
    let k = KernelCfg { g: 2, d: D, bs: 4, scale: R(0.5) };
    let r = &batch.reqs[0];
    assert!(concat_check(&k, &batch.pages, r, 1, &m));
    assert!(!concat_check(&k, &batch.pages[..1], r, 1, &m));
    assert!(attn_check(&k, &batch.pages, r, 3, &batch.masks, &m));
    assert!(!attn_check(&k, &batch.pages, r, 3, &batch.masks[1..], &m));
    assert!(!attn_check(&k, &batch.pages[..1], r, 3, &batch.masks, &m));
    let no_groups = KernelCfg { g: 0, ..k };
    assert!(!attn_check(&no_groups, &batch.pages, r, 3, &batch.masks, &m));
}
