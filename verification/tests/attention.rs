use flash_attn::attention::batch::causal_mask;
use flash_attn::attention::cpu::flash_attn_block;
use flash_attn::attention::online::update_row;
use flash_attn::attention::{KVPage, KernelCfg, KernelReq, Strides2D};
use flash_attn::scalar::Scalar;

#[derive(Clone, Copy, Debug, PartialEq)]
struct R(f64);

impl Scalar for R {
    fn zero() -> Self {
        R(0.0)
    }
    fn neg_infinity() -> Self {
        R(f64::NEG_INFINITY)
    }
    fn empty_sum() -> Self {
        R(0.0)
    }
    fn plus(self, rhs: Self) -> Self {
        R(self.0 + rhs.0)
    }
    fn minus(self, rhs: Self) -> Self {
        R(self.0 - rhs.0)
    }
    fn times(self, rhs: Self) -> Self {
        R(self.0 * rhs.0)
    }
    fn over(self, rhs: Self) -> Self {
        R(self.0 / rhs.0)
    }
    fn exp(self) -> Self {
        R(self.0.exp())
    }
    fn exceeds(self, rhs: Self) -> bool {
        self.0 > rhs.0
    }
}

const H: usize = 4;
const KVH: usize = 2;
const D: usize = 3;
const N: usize = 5;
const POS: usize = 4;
const S: usize = N + POS;
/// Room for the cache, whatever the page.
const CTX: usize = 12;

// elements: q [H, N, D], o [H, N, D], cache [CTX, 2, KVH, D]
const Q: usize = 0;
const O: usize = Q + H * N * D;
const CACHE: usize = O + H * N * D;
const END: usize = CACHE + CTX * 2 * KVH * D;

fn memory() -> Vec<R> {
    (0..END).map(|i| R(((i * 37 + 11) % 101) as f64 / 50.0 - 1.0)).collect()
}

fn request(bs: usize) -> KernelReq {
    let rows = Strides2D { head: (N * D * 8) as isize, seq: (D * 8) as isize };
    KernelReq {
        q: Q * 8,
        q_strides: rows,
        k: 0,
        k_strides: rows,
        v: 0,
        v_strides: rows,
        pages_start: 0,
        kv_strides: Strides2D { head: (D * 8) as isize, seq: (2 * KVH * D * 8) as isize },
        o: O * 8,
        o_strides: rows,
        mask: 0,
        n: N,
        s: S,
        s_ceil: S.div_ceil(bs) * bs,
    }
}

fn pages(bs: usize) -> Vec<KVPage> {
    (0..S.div_ceil(bs))
        .map(|i| {
            let k = (CACHE + i * bs * 2 * KVH * D) * 8;
            KVPage { k, v: k + KVH * D * 8 }
        })
        .collect()
}

fn kernel(bs: usize) -> KernelCfg<R> {
    KernelCfg { g: H / KVH, d: D, bs, scale: R(1.0 / (D as f64).sqrt()) }
}

fn run(m: &mut Vec<R>, bs: usize, bn: usize, head: usize) {
    let masks = causal_mask(N, S, request(bs).s_ceil);
    let mut shared = vec![R(7.0); 2 * bn * D + 2 * bs * D + bn * bs];
    flash_attn_block(kernel(bs), &pages(bs), &[request(bs)], 0, head, bn, &mut shared, &masks, m);
}

fn key(m: &[R], p: usize, head: usize, e: usize) -> f64 {
    m[CACHE + p * 2 * KVH * D + head * D + e].0
}

fn val(m: &[R], p: usize, head: usize, e: usize) -> f64 {
    m[CACHE + p * 2 * KVH * D + KVH * D + head * D + e].0
}

/// Causal softmax attention, straight from its definition.
fn expected(m: &[R], head: usize, iq: usize) -> Vec<f64> {
    let kv = head / (H / KVH);
    let w: Vec<f64> = (0..=POS + iq)
        .map(|p| {
            let dot: f64 =
                (0..D).map(|e| m[Q + head * N * D + iq * D + e].0 * key(m, p, kv, e)).sum();
            (dot / (D as f64).sqrt()).exp()
        })
        .collect();
    let total: f64 = w.iter().sum();
    (0..D).map(|e| w.iter().enumerate().map(|(p, w)| w * val(m, p, kv, e)).sum::<f64>() / total).collect()
}

fn output(m: &[R], head: usize, iq: usize) -> Vec<f64> {
    (0..D).map(|e| m[O + head * N * D + iq * D + e].0).collect()
}

#[test]
fn block_computes_causal_attention() {
    for bs in [1, 2, 3, 4, 5, 6, 9, 12] {
        for bn in [1, 2, 3, 5, 8] {
            for head in 0..H {
                let before = memory();
                let mut m = before.clone();
                run(&mut m, bs, bn, head);
                for iq in 0..N {
                    let want = expected(&before, head, iq);
                    let got = output(&m, head, iq);
                    for e in 0..D {
                        assert!((want[e] - got[e]).abs() < 1e-12, "{want:?} {got:?}");
                    }
                }
            }
        }
    }
}

#[test]
fn block_changes_its_output_rows_only() {
    let before = memory();
    let mut m = before.clone();
    run(&mut m, 4, 2, 1);
    let rows = O + N * D..O + 2 * N * D;
    for p in 0..END {
        if !rows.contains(&p) {
            assert_eq!(m[p], before[p]);
        }
    }
}

#[test]
fn query_tiles_do_not_change_a_bit() {
    let mut a = memory();
    run(&mut a, 4, 1, 2);
    for bn in [2, 3, 4, 5, 6, 100] {
        let mut b = memory();
        run(&mut b, 4, bn, 2);
        assert_eq!(a, b);
    }
}

#[test]
fn unseen_keys_do_not_change_a_bit() {
    let mut a = memory();
    run(&mut a, 3, 2, 3);
    let mut b = memory();
    // the last place is seen by the last query row alone
    for e in 0..D {
        b[CACHE + (S - 1) * 2 * KVH * D + D + e] = R(f64::NAN);
    }
    run(&mut b, 3, 2, 3);
    for iq in 0..N - 1 {
        assert_eq!(output(&a, 3, iq), output(&b, 3, iq));
    }
    assert!(output(&b, 3, N - 1)[0].is_nan());
}

#[test]
fn a_row_depends_on_what_it_sees() {
    let (bs, bn, head, iq) = (4, 2, 2, 1);
    let masks = causal_mask(N, S, request(bs).s_ceil);
    let go = |m: &mut Vec<R>, masks: &[bool]| {
        let mut shared = vec![R(7.0); 2 * bn * D + 2 * bs * D + bn * bs];
        flash_attn_block(kernel(bs), &pages(bs), &[request(bs)], 0, head, bn, &mut shared, masks, m);
    };
    let mut a = memory();
    go(&mut a, &masks);
    // other query rows, other rows of the mask, and the places that row 1 does
    // not look at
    let mut b = memory();
    for i in 0..N {
        if i != iq {
            b[Q + (head * N + i) * D] = R(3.0);
        }
    }
    for p in POS + iq + 1..CTX {
        for e in 0..2 * KVH * D {
            b[CACHE + p * 2 * KVH * D + e] = R(-5.0);
        }
    }
    let s_ceil = request(bs).s_ceil;
    let mut other = masks.clone();
    for i in (0..N).filter(|i| *i != iq) {
        other[i * s_ceil + 2] = false;
    }
    go(&mut b, &other);
    assert_eq!(output(&a, head, iq), output(&b, head, iq));
    assert_ne!(output(&a, head, 0), output(&b, head, 0));
    assert_ne!(output(&a, head, iq + 1), output(&b, head, iq + 1));
}

#[test]
fn attention_blocks_commute() {
    let mut a = memory();
    let mut b = memory();
    for head in 0..H {
        run(&mut a, 4, 2, head);
        run(&mut b, 4, 2, H - 1 - head);
    }
    assert_eq!(a, b);
}

#[test]
fn workspace_holds_the_last_tile_and_page() {
    let (bs, bn, head) = (4, 3, 1);
    let before = memory();
    let mut m = before.clone();
    let masks = causal_mask(N, S, request(bs).s_ceil);
    let mut w = vec![R(7.0); 2 * bn * D + 2 * bs * D + bn * bs];
    flash_attn_block(kernel(bs), &pages(bs), &[request(bs)], 0, head, bn, &mut w, &masks, &mut m);
    // the last tile has the rows 3 and 4; the query row after them is loaded too
    for e in 0..D {
        assert_eq!(w[e], before[Q + head * N * D + 3 * D + e]);
        assert_eq!(w[D + e], before[Q + head * N * D + 4 * D + e]);
        assert_eq!(w[2 * D + e], before[Q + head * N * D + 5 * D + e]);
        assert_eq!(w[bn * D + e].0, output(&m, head, 3)[e]);
        assert_eq!(w[bn * D + 2 * D + e], R(0.0));
        assert_eq!(w[2 * bn * D + e].0, key(&before, 8, 0, e));
        assert_eq!(w[2 * bn * D + bs * D + e].0, val(&before, 8, 0, e));
    }
    // of the last page, row 3 sees nothing and row 4 its own place
    let x = 2 * bn * D + 2 * bs * D;
    assert_eq!(w[x], R(0.0));
    assert!(w[x + bs].0 > 0.0);
    assert_eq!(w[x + bs + 1], R(0.0));
}

#[test]
fn query_rows_outside_the_memory_are_not_loaded() {
    // the queries of head 0 lie backwards: past its last row the memory ends
    let (bs, bn) = (4, 3);
    let mut r = request(bs);
    r.q = (N - 1) * D * 8;
    r.q_strides = Strides2D { head: 0, seq: -((D * 8) as isize) };
    let before = memory();
    let mut m = before.clone();
    let masks = causal_mask(N, S, r.s_ceil);
    let mut w = vec![R(7.0); 2 * bn * D + 2 * bs * D + bn * bs];
    flash_attn_block(kernel(bs), &pages(bs), &[r], 0, 0, bn, &mut w, &masks, &mut m);
    for e in 0..D {
        assert_eq!(w[e], before[D + e]);
        assert_eq!(w[D + e], before[e]);
        // what the first tile left there
        assert_eq!(w[2 * D + e], before[2 * D + e]);
    }
}

#[test]
fn no_query_rows_leave_memory_and_workspace() {
    let mut r = request(4);
    r.n = 0;
    let mut m = memory();
    let mut w = vec![R(7.0); 2 * 2 * D + 2 * 4 * D + 2 * 4];
    flash_attn_block(kernel(4), &pages(4), &[r], 0, 0, 2, &mut w, &[], &mut m);
    assert_eq!(m, memory());
    assert!(w.iter().all(|x| *x == R(7.0)));
}

#[test]
fn output_may_take_the_place_of_the_queries() {
    let plain = {
        let mut m = memory();
        run(&mut m, 4, 2, 1);
        (0..N).map(|iq| output(&m, 1, iq)).collect::<Vec<_>>()
    };
    let mut r = request(4);
    r.o = r.q;
    let mut m = memory();
    let masks = causal_mask(N, S, r.s_ceil);
    let mut w = vec![R(0.0); 2 * 2 * D + 2 * 4 * D + 2 * 4];
    flash_attn_block(kernel(4), &pages(4), &[r], 0, 1, 2, &mut w, &masks, &mut m);
    for iq in 0..N {
        for e in 0..D {
            assert_eq!(m[Q + N * D + iq * D + e].0, plain[iq][e]);
        }
    }
}

#[test]
fn update_row_takes_one_page() {
    let q = [R(1.0), R(2.0)];
    let kj = [R(1.0), R(1.0), R(3.0), R(0.0), R(9.0), R(9.0)];
    let vj = [R(10.0), R(20.0), R(30.0), R(40.0), R(50.0), R(60.0)];
    let masks = [false, true, true, false];
    let mut x = [R(5.0); 3];
    let mut acc = [R(4.0), R(8.0)];
    let (m, l) =
        update_row(R(2.0), &q, &kj, &vj, &masks, 1, &mut x, R(6.0), R(3.0), &mut acc);
    // scores 6, 6 and nothing: the highest stays, and no weight is rescaled
    assert_eq!(m, R(6.0));
    assert_eq!(x, [R(1.0), R(1.0), R(0.0)]);
    assert_eq!(l, R(5.0));
    assert_eq!(acc, [R(44.0), R(68.0)]);
}

#[test]
fn update_row_rescales_to_a_higher_score() {
    let mut x = [R(0.0)];
    let mut acc = [R(8.0)];
    let (m, l) =
        update_row(R(1.0), &[R(2.0)], &[R(3.0)], &[R(5.0)], &[true], 0, &mut x, R(4.0), R(2.0), &mut acc);
    let e = (-2.0f64).exp();
    assert_eq!(m, R(6.0));
    assert_eq!(l, R(2.0 * e + 1.0));
    assert_eq!(acc, [R(8.0 * e + 5.0)]);
}
