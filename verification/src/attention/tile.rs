//! One tile of query rows against the pages of a request.
use crate::attention::block::{row_ok, Block, Work};
use crate::attention::online::{
    fresh, lemma_row_fits, output, page_step, rows, scores, update_row, weights, RowState,
};
use crate::attention::check::row_check;
use crate::attention::{KVPage, KernelCfg, KernelReq};
use crate::ceil::div_ceil;
use crate::memory::{locate, put, read};
use crate::scalar::{functional, Scalar};
use vstd::prelude::*;

verus! {

/// Writing row `r` changes that row and no other.
proof fn lemma_put_row<T>(buf: Seq<T>, count: nat, d: nat, r: int, row: Seq<T>)
    requires
        buf.len() == count * d,
        0 <= r < count,
        row.len() == d,
    ensures
        rows(put(buf, r * d, row), count, d) == rows(buf, count, d).update(r, row),
{
    let new = rows(put(buf, r * d, row), count, d);
    assert forall|i: int| 0 <= i < count implies #[trigger] new[i] =~= rows(
        buf,
        count,
        d,
    ).update(r, row)[i] by {
        lemma_row_fits(i, count as int, d as int);
        if i < r {
            lemma_row_fits(i, r, d as int);
        } else if i > r {
            lemma_row_fits(r, i, d as int);
        }
    }
    assert(new =~= rows(buf, count, d).update(r, row));
}

/// Copies the `d` elements of `mem` from `at` on into row `r` of `buf`.
fn copy_row<T: Copy>(mem: &[T], at: usize, buf: &mut [T], r: usize, d: usize, Ghost(count): Ghost<nat>)
    requires
        at + d <= mem@.len(),
        old(buf)@.len() == count * d,
        r < count,
    ensures
        final(buf)@.len() == old(buf)@.len(),
        rows(final(buf)@, count, d as nat) == rows(old(buf)@, count, d as nat).update(
            r as int,
            read(mem@, at as int, d as nat),
        ),
{
    let len: usize = buf.len();
    let mem_len: usize = mem.len();
    proof {
        lemma_row_fits(r as int, count as int, d as int);
    }
    let to: usize = r * d;
    let ghost row = read(mem@, at as int, d as nat);
    for t in 0..d
        invariant
            mem_len == mem@.len(),
            at + d <= mem_len,
            len == buf@.len(),
            to + d <= len,
            row == read(mem@, at as int, d as nat),
            buf@ =~= put(old(buf)@, to as int, row.take(t as int)),
    {
        buf[to + t] = mem[at + t];
    }
    assert(row.take(d as int) =~= row);
    proof {
        lemma_put_row(old(buf)@, count, d as nat, r as int, row);
    }
}

/// Loads the `bn` query rows from `first` on into `qi`, those past the last of
/// the request included. Where there is no such row in the memory, the row of
/// `qi` stays as it was.
fn load_queries<T: Scalar>(
    req: &KernelReq,
    d: usize,
    head: usize,
    first: usize,
    bn: usize,
    mem: &[T],
    qi: &mut [T],
    Ghost(b): Ghost<Block<T>>,
)
    requires
        *req == b.req,
        d == b.d(),
        head == b.head,
        old(qi)@.len() == bn * d,
    ensures
        final(qi)@.len() == old(qi)@.len(),
        rows(final(qi)@, bn as nat, d as nat) == Seq::new(
            bn as nat,
            |r: int|
                if b.query_there(mem@.len(), first + r) {
                    b.query(mem@, first + r)
                } else {
                    rows(old(qi)@, bn as nat, d as nat)[r]
                },
        ),
{
    let ghost before = rows(qi@, bn as nat, d as nat);
    for r in 0..bn
        invariant
            *req == b.req,
            d == b.d(),
            head == b.head,
            qi@.len() == bn * d,
            before.len() == bn,
            rows(qi@, bn as nat, d as nat) =~= Seq::new(
                bn as nat,
                |t: int|
                    if t < r && b.query_there(mem@.len(), first + t) {
                        b.query(mem@, first + t)
                    } else {
                        before[t]
                    },
            ),
    {
        if r <= usize::MAX - first && row_check(mem, req.q, &req.q_strides, head, first + r, d) {
            let offset: isize = req.q_strides.offset(head, first + r);
            let at: usize = locate::<T>(mem, req.q, offset, d);
            copy_row(mem, at, qi, r, d, Ghost(bn as nat));
        }
    }
}

/// Row `i` has been loaded once the threads before `it` are done and thread
/// `it` has reached row `cur`: thread `t` of `bn` loads the rows `t`, `t + bn`,
/// `t + 2 * bn` and so on.
spec fn loaded(bn: int, it: int, cur: int, i: int) -> bool {
    i % bn < it || (i % bn == it && i < cur)
}

/// Row `i` of `buf` is row `i` of `want`.
spec fn holds_row<T>(buf: Seq<T>, d: nat, want: Seq<Seq<T>>, i: int) -> bool {
    rows(buf, want.len(), d)[i] == want[i]
}

/// Thread `it`, having loaded row `cur`, has loaded its rows below `cur + bn`.
proof fn lemma_stride(bn: int, it: int, cur: int, i: int)
    requires
        0 <= it < bn,
        0 <= cur,
        0 <= i,
        cur % bn == it,
    ensures
        (cur + bn) % bn == it,
        loaded(bn, it, cur + bn, i) <==> loaded(bn, it, cur, i) || i == cur,
{
    vstd::arithmetic::div_mod::lemma_fundamental_div_mod(cur, bn);
    vstd::arithmetic::div_mod::lemma_fundamental_div_mod(i, bn);
    vstd::arithmetic::div_mod::lemma_mod_add_multiples_vanish(cur, bn);
    if i % bn == it && cur <= i < cur + bn {
        let a = cur / bn;
        let c = i / bn;
        assert(a == c) by (nonlinear_arith)
            requires
                bn > 0,
                0 <= bn * c - bn * a < bn,
        ;
    }
}

/// Loads page `j` into `kj` and `vj`, row by row in the order in which `bn`
/// threads would take turns.
fn load_page<T: Scalar>(
    req: &KernelReq,
    page: &KVPage,
    kv_head: usize,
    bn: usize,
    bs: usize,
    d: usize,
    mem: &[T],
    kj: &mut [T],
    vj: &mut [T],
    Ghost(b): Ghost<Block<T>>,
    Ghost(j): Ghost<int>,
)
    requires
        *req == b.req,
        *page == b.page(j),
        kv_head == b.kv_head(),
        bs == b.bs(),
        d == b.d(),
        bn > 0,
        old(kj)@.len() == bs * d,
        old(vj)@.len() == bs * d,
        forall|i: int|
            0 <= i < bs ==> #[trigger] b.cache_row_ok::<T>(mem@.len(), kv_head as int, j, i),
    ensures
        final(kj)@.len() == old(kj)@.len(),
        final(vj)@.len() == old(vj)@.len(),
        rows(final(kj)@, bs as nat, d as nat) == b.keys(mem@, j),
        rows(final(vj)@, bs as nat, d as nat) == b.vals(mem@, j),
{
    let ghost keys = b.keys(mem@, j);
    let ghost vals = b.vals(mem@, j);
    let ghost n = bn as int;
    assert forall|i: int| 0 <= i < bs implies !#[trigger] loaded(n, 0, 0, i) by {
        vstd::arithmetic::div_mod::lemma_mod_bound(i, n);
    }
    let mut it: usize = 0;
    while it < bn
        invariant
            it <= bn,
            *req == b.req,
            *page == b.page(j),
            kv_head == b.kv_head(),
            bs == b.bs(),
            d == b.d(),
            n == bn,
            n > 0,
            kj@.len() == bs * d,
            vj@.len() == bs * d,
            keys == b.keys(mem@, j),
            vals == b.vals(mem@, j),
            forall|i: int|
                0 <= i < bs ==> #[trigger] b.cache_row_ok::<T>(mem@.len(), kv_head as int, j, i),
            forall|i: int|
                0 <= i < bs && #[trigger] loaded(n, it as int, 0, i) ==> holds_row(
                    kj@,
                    d as nat,
                    keys,
                    i,
                ) && holds_row(vj@, d as nat, vals, i),
        decreases bn - it,
    {
        let mut i: usize = it;
        let mut more: bool = i < bs;
        let ghost mut cur: int = it as int;
        proof {
            vstd::arithmetic::div_mod::lemma_small_mod(it as nat, bn as nat);
            assert forall|t: int| 0 <= t < bs && #[trigger] loaded(n, it as int, cur, t) implies holds_row(
                kj@,
                d as nat,
                keys,
                t,
            ) && holds_row(vj@, d as nat, vals, t) by {
                if t % n == it && t < it {
                    vstd::arithmetic::div_mod::lemma_small_mod(t as nat, bn as nat);
                }
                assert(loaded(n, it as int, 0, t));
            }
        }
        while more
            invariant
                *req == b.req,
                *page == b.page(j),
                kv_head == b.kv_head(),
                bs == b.bs(),
                d == b.d(),
                n == bn,
                it < bn,
                kj@.len() == bs * d,
                vj@.len() == bs * d,
                keys == b.keys(mem@, j),
                vals == b.vals(mem@, j),
                forall|i: int|
                    0 <= i < bs ==> #[trigger] b.cache_row_ok::<T>(
                        mem@.len(),
                        kv_head as int,
                        j,
                        i,
                    ),
                cur >= 0,
                cur % n == it,
                more ==> i == cur && i < bs,
                !more ==> cur >= bs,
                forall|t: int|
                    0 <= t < bs && #[trigger] loaded(n, it as int, cur, t) ==> holds_row(
                        kj@,
                        d as nat,
                        keys,
                        t,
                    ) && holds_row(vj@, d as nat, vals, t),
            decreases (if more { bs - cur } else { 0 }),
        {
            assert(b.cache_row_ok::<T>(mem@.len(), kv_head as int, j, i as int));
            let offset: isize = req.kv_strides.offset(kv_head, i);
            let k_at: usize = locate::<T>(mem, page.k, offset, d);
            let v_at: usize = locate::<T>(mem, page.v, offset, d);
            let ghost kj0 = kj@;
            let ghost vj0 = vj@;
            copy_row(mem, k_at, kj, i, d, Ghost(bs as nat));
            copy_row(mem, v_at, vj, i, d, Ghost(bs as nat));
            proof {
                assert forall|t: int| 0 <= t < bs && #[trigger] loaded(n, it as int, cur + n, t)
                    implies holds_row(kj@, d as nat, keys, t) && holds_row(
                    vj@,
                    d as nat,
                    vals,
                    t,
                ) by {
                    lemma_stride(n, it as int, cur, t);
                    if t != cur {
                        assert(loaded(n, it as int, cur, t));
                        assert(holds_row(kj0, d as nat, keys, t));
                        assert(holds_row(vj0, d as nat, vals, t));
                    }
                }
                lemma_stride(n, it as int, cur, 0);
                cur = cur + n;
            }
            if bs - i <= bn {
                more = false;
            } else {
                i = i + bn;
            }
        }
        assert forall|t: int| 0 <= t < bs && #[trigger] loaded(n, it + 1, 0, t) implies holds_row(
            kj@,
            d as nat,
            keys,
            t,
        ) && holds_row(vj@, d as nat, vals, t) by {
            vstd::arithmetic::div_mod::lemma_mod_bound(t, n);
            assert(loaded(n, it as int, cur, t));
        }
        it = it + 1;
    }
    assert forall|i: int| 0 <= i < bs implies #[trigger] holds_row(kj@, d as nat, keys, i)
        && holds_row(vj@, d as nat, vals, i) by {
        vstd::arithmetic::div_mod::lemma_mod_bound(i, n);
        assert(loaded(n, n, 0, i));
    }
    assert forall|i: int| 0 <= i < bs implies #[trigger] keys[i] == rows(kj@, bs as nat, d as nat)[i] by {
        assert(holds_row(kj@, d as nat, keys, i));
    }
    assert forall|i: int| 0 <= i < bs implies #[trigger] vals[i] == rows(vj@, bs as nat, d as nat)[i] by {
        assert(holds_row(kj@, d as nat, keys, i));
    }
    assert(rows(kj@, bs as nat, d as nat) =~= keys);
    assert(rows(vj@, bs as nat, d as nat) =~= vals);
}

/// Brings query row `r` of the tile one page further.
fn step_row<T: Scalar>(
    scale: T,
    d: usize,
    bs: usize,
    r: usize,
    qi: &[T],
    kj: &[T],
    vj: &[T],
    masks: &[bool],
    mask_at: usize,
    x: &mut [T],
    m: T,
    l: T,
    oi: &mut [T],
    Ghost(bn): Ghost<nat>,
) -> (res: (T, T))
    requires
        functional::<T>(),
        r < bn,
        qi@.len() == bn * d,
        old(oi)@.len() == bn * d,
        old(x)@.len() == bn * bs,
        kj@.len() == bs * d,
        vj@.len() == bs * d,
        mask_at + bs <= masks@.len(),
    ensures
        final(oi)@.len() == old(oi)@.len(),
        final(x)@.len() == old(x)@.len(),
        ({
            let q = rows(qi@, bn, d as nat)[r as int];
            let keys = rows(kj@, bs as nat, d as nat);
            let vals = rows(vj@, bs as nat, d as nat);
            let mask = read(masks@, mask_at as int, bs as nat);
            let st = page_step(
                RowState { m, l, acc: rows(old(oi)@, bn, d as nat)[r as int] },
                scale,
                q,
                keys,
                vals,
                mask,
            );
            &&& res.0 == st.m
            &&& res.1 == st.l
            &&& rows(final(oi)@, bn, d as nat) == rows(old(oi)@, bn, d as nat).update(
                r as int,
                st.acc,
            )
            &&& rows(final(x)@, bn, bs as nat) == rows(old(x)@, bn, bs as nat).update(
                r as int,
                weights(scores(scale, q, keys, mask), st.m),
            )
        }),
{
    let qi_len: usize = qi.len();
    let x_len: usize = x.len();
    proof {
        lemma_row_fits(r as int, bn as int, d as int);
        lemma_row_fits(r as int, bn as int, bs as int);
    }
    let ghost oi0 = oi@;
    let ghost x0 = x@;
    let o_from: usize = r * d;
    let x_from: usize = r * bs;
    let q = vstd::slice::slice_subrange(qi, o_from, o_from + d);
    let (_o_before, o_rest) = oi.split_at_mut(o_from);
    let (acc, _o_after) = o_rest.split_at_mut(d);
    let (_x_before, x_rest) = x.split_at_mut(x_from);
    let (xr, _x_after) = x_rest.split_at_mut(bs);
    assert(q@ =~= rows(qi@, bn, d as nat)[r as int]);
    assert(acc@ =~= rows(oi0, bn, d as nat)[r as int]);
    let res = update_row(scale, q, kj, vj, masks, mask_at, xr, m, l, acc);
    proof {
        lemma_put_row(oi0, bn, d as nat, r as int, acc@);
        lemma_put_row(x0, bn, bs as nat, r as int, xr@);
        assert(_o_before@ + (acc@ + _o_after@) =~= put(oi0, o_from as int, acc@));
        assert(_x_before@ + (xr@ + _x_after@) =~= put(x0, x_from as int, xr@));
    }
    res
}

/// `count` times `x`.
pub(crate) fn filled<T: Copy>(x: T, count: usize) -> (v: Vec<T>)
    ensures
        v@ == Seq::new(count as nat, |i: int| x),
{
    let mut v: Vec<T> = Vec::new();
    for i in 0..count
        invariant
            v@ =~= Seq::new(i as nat, |t: int| x),
    {
        v.push(x);
    }
    v
}

/// What the first `count` rows of the tile have gathered: `j + 1` pages before
/// row `split`, and `j` pages from it on. The rows after them are as `before`.
spec fn accs<T: Scalar>(
    b: Block<T>,
    mem: Seq<T>,
    masks: Seq<bool>,
    first: int,
    bn: nat,
    before: Seq<Seq<T>>,
    count: int,
    split: int,
    j: nat,
) -> Seq<Seq<T>> {
    Seq::new(
        bn,
        |r: int|
            if r >= count {
                before[r]
            } else if r < split {
                b.state(mem, masks, first + r, j + 1).acc
            } else {
                b.state(mem, masks, first + r, j).acc
            },
    )
}

/// Brings the `count` query rows of the tile through all pages. Returns the sum
/// of the weights of each row.
fn attend_pages<T: Scalar>(
    cfg: &KernelCfg<T>,
    cache_pages: &[KVPage],
    req: &KernelReq,
    head: usize,
    bn: usize,
    first: usize,
    count: usize,
    mem: &[T],
    masks: &[bool],
    qi: &[T],
    oi: &mut [T],
    kj: &mut [T],
    vj: &mut [T],
    x: &mut [T],
    Ghost(b): Ghost<Block<T>>,
) -> (ls: Vec<T>)
    requires
        functional::<T>(),
        b.cfg == *cfg,
        b.pages == cache_pages@,
        b.req == *req,
        b.head == head,
        b.attn_ok(mem@.len(), masks@.len()),
        0 < count <= bn,
        first + count <= req.n,
        qi@.len() == bn * cfg.d,
        old(oi)@.len() == bn * cfg.d,
        old(kj)@.len() == cfg.bs * cfg.d,
        old(vj)@.len() == cfg.bs * cfg.d,
        old(x)@.len() == bn * cfg.bs,
        forall|r: int|
            0 <= r < count ==> #[trigger] rows(qi@, bn as nat, b.d())[r] == b.query(mem@, first + r),
        forall|r: int|
            0 <= r < count ==> #[trigger] rows(old(oi)@, bn as nat, b.d())[r] == fresh::<T>(
                b.d(),
            ).acc,
    ensures
        final(oi)@.len() == old(oi)@.len(),
        final(kj)@.len() == old(kj)@.len(),
        final(vj)@.len() == old(vj)@.len(),
        final(x)@.len() == old(x)@.len(),
        ls@.len() == bn,
        forall|r: int|
            0 <= r < count ==> #[trigger] ls@[r] == b.state(
                mem@,
                masks@,
                first + r,
                b.page_count() as nat,
            ).l,
        rows(final(oi)@, bn as nat, b.d()) == Seq::new(
            bn as nat,
            |r: int|
                if r < count {
                    b.state(mem@, masks@, first + r, b.page_count() as nat).acc
                } else {
                    rows(old(oi)@, bn as nat, b.d())[r]
                },
        ),
        rows(final(kj)@, cfg.bs as nat, b.d()) == (if b.page_count() > 0 {
            b.keys(mem@, b.page_count() - 1)
        } else {
            rows(old(kj)@, cfg.bs as nat, b.d())
        }),
        rows(final(vj)@, cfg.bs as nat, b.d()) == (if b.page_count() > 0 {
            b.vals(mem@, b.page_count() - 1)
        } else {
            rows(old(vj)@, cfg.bs as nat, b.d())
        }),
        rows(final(x)@, bn as nat, cfg.bs as nat) == Seq::new(
            bn as nat,
            |r: int|
                if r < count && b.page_count() > 0 {
                    b.page_weights(mem@, masks@, first + r, b.page_count() - 1)
                } else {
                    rows(old(x)@, bn as nat, cfg.bs as nat)[r]
                },
        ),
{
    let d: usize = cfg.d;
    let bs: usize = cfg.bs;
    let scale: T = cfg.scale;
    let masks_len: usize = masks.len();
    let pages_len: usize = cache_pages.len();
    let page_count: usize = div_ceil(req.s_ceil, bs);
    let mut ms: Vec<T> = filled(T::neg_infinity(), bn);
    let mut ls: Vec<T> = filled(T::zero(), bn);
    let ghost oi0 = rows(oi@, bn as nat, b.d());
    let ghost kj0 = rows(kj@, bs as nat, b.d());
    let ghost vj0 = rows(vj@, bs as nat, b.d());
    let ghost x0 = rows(x@, bn as nat, bs as nat);
    let ghost memv = mem@;
    let ghost maskv = masks@;
    let mut j: usize = 0;
    assert(rows(oi@, bn as nat, b.d()) =~= accs(b, memv, maskv, first as int, bn as nat, oi0, count as int, 0, 0));
    while j < page_count
        invariant
            functional::<T>(),
            b.cfg == *cfg,
            b.pages == cache_pages@,
            b.req == *req,
            b.head == head,
            memv == mem@,
            maskv == masks@,
            d == cfg.d,
            bs == cfg.bs,
            scale == cfg.scale,
            masks_len == masks@.len(),
            pages_len == cache_pages@.len(),
            page_count == b.page_count(),
            j <= page_count,
            b.attn_ok(mem@.len(), masks@.len()),
            0 < count <= bn,
            first + count <= req.n,
            qi@.len() == bn * d,
            oi@.len() == bn * d,
            kj@.len() == bs * d,
            vj@.len() == bs * d,
            x@.len() == bn * bs,
            x0.len() == bn,
            ms@.len() == bn,
            ls@.len() == bn,
            forall|r: int|
                0 <= r < count ==> #[trigger] rows(qi@, bn as nat, b.d())[r] == b.query(memv, first + r),
            forall|r: int|
                0 <= r < count ==> #[trigger] ms@[r] == b.state(memv, maskv, first + r, j as nat).m,
            forall|r: int|
                0 <= r < count ==> #[trigger] ls@[r] == b.state(memv, maskv, first + r, j as nat).l,
            rows(oi@, bn as nat, b.d()) == accs(b, memv, maskv, first as int, bn as nat, oi0, count as int, 0, j as nat),
            rows(kj@, bs as nat, b.d()) == (if j > 0 { b.keys(memv, j - 1) } else { kj0 }),
            rows(vj@, bs as nat, b.d()) == (if j > 0 { b.vals(memv, j - 1) } else { vj0 }),
            rows(x@, bn as nat, bs as nat) == Seq::new(
                bn as nat,
                |r: int|
                    if r < count && j > 0 {
                        b.page_weights(memv, maskv, first + r, j - 1)
                    } else {
                        x0[r]
                    },
            ),
        decreases page_count - j,
    {
        proof {
            crate::ceil::lemma_ceil_div(req.s_ceil as int, bs as int);
        }
        let page: KVPage = cache_pages[req.pages_start + j];
        load_page(req, &page, head / cfg.g, bn, bs, d, mem, kj, vj, Ghost(b), Ghost(j as int));
        let ghost x1 = rows(x@, bn as nat, bs as nat);
        let mut it: usize = 0;
        while it < count
            invariant
                functional::<T>(),
                b.cfg == *cfg,
                b.req == *req,
                memv == mem@,
                maskv == masks@,
                d == cfg.d,
                bs == cfg.bs,
                scale == cfg.scale,
                masks_len == masks@.len(),
                page_count == b.page_count(),
                j < page_count,
                b.attn_ok(mem@.len(), masks@.len()),
                it <= count <= bn,
                first + count <= req.n,
                qi@.len() == bn * d,
                oi@.len() == bn * d,
                kj@.len() == bs * d,
                vj@.len() == bs * d,
                x@.len() == bn * bs,
                x1.len() == bn,
                ms@.len() == bn,
                ls@.len() == bn,
                rows(kj@, bs as nat, b.d()) == b.keys(memv, j as int),
                rows(vj@, bs as nat, b.d()) == b.vals(memv, j as int),
                forall|r: int|
                    0 <= r < count ==> #[trigger] rows(qi@, bn as nat, b.d())[r] == b.query(memv, first + r),
                forall|r: int|
                    0 <= r < it ==> #[trigger] ms@[r] == b.state(memv, maskv, first + r, (j + 1) as nat).m,
                forall|r: int|
                    it <= r < count ==> #[trigger] ms@[r] == b.state(memv, maskv, first + r, j as nat).m,
                forall|r: int|
                    0 <= r < it ==> #[trigger] ls@[r] == b.state(memv, maskv, first + r, (j + 1) as nat).l,
                forall|r: int|
                    it <= r < count ==> #[trigger] ls@[r] == b.state(memv, maskv, first + r, j as nat).l,
                rows(oi@, bn as nat, b.d()) == accs(b, memv, maskv, first as int, bn as nat, oi0, count as int, it as int, j as nat),
                rows(x@, bn as nat, bs as nat) == Seq::new(
                    bn as nat,
                    |r: int|
                        if r < it {
                            b.page_weights(memv, maskv, first + r, j as int)
                        } else {
                            x1[r]
                        },
                ),
            decreases count - it,
        {
            let iq: usize = first + it;
            proof {
                assert(b.query_ok(mem@.len(), masks@.len(), iq as int));
                assert(b.mask_at(iq as int, j as int) + b.bs() <= masks@.len());
                assert(iq * req.s_ceil >= 0 && j * bs >= 0) by (nonlinear_arith);
                assert(rows(qi@, bn as nat, b.d())[it as int] == b.query(memv, iq as int));
                assert(rows(oi@, bn as nat, b.d())[it as int] == b.state(memv, maskv, iq as int, j as nat).acc);
            }
            let mask_at: usize = req.mask + iq * req.s_ceil + j * bs;
            let res = step_row(
                scale,
                d,
                bs,
                it,
                qi,
                kj,
                vj,
                masks,
                mask_at,
                x,
                ms[it],
                ls[it],
                oi,
                Ghost(bn as nat),
            );
            ms.set(it, res.0);
            ls.set(it, res.1);
            proof {
                let st0 = b.state(memv, maskv, iq as int, j as nat);
                let st1 = b.state(memv, maskv, iq as int, (j + 1) as nat);
                assert(b.mask(maskv, iq as int, j as int) == read(maskv, mask_at as int, bs as nat));
                assert(st1 == page_step(
                    st0,
                    scale,
                    b.query(memv, iq as int),
                    b.keys(memv, j as int),
                    b.vals(memv, j as int),
                    b.mask(maskv, iq as int, j as int),
                ));
                assert(st1.acc == rows(oi@, bn as nat, b.d())[it as int]);
                assert(rows(oi@, bn as nat, b.d()) =~= accs(
                    b,
                    memv,
                    maskv,
                    first as int,
                    bn as nat,
                    oi0,
                    count as int,
                    it + 1,
                    j as nat,
                ));
            }
            it = it + 1;
        }
        assert(accs(b, memv, maskv, first as int, bn as nat, oi0, count as int, count as int, j as nat) =~= accs(
            b,
            memv,
            maskv,
            first as int,
            bn as nat,
            oi0,
            count as int,
            0,
            (j + 1) as nat,
        ));
        j = j + 1;
    }
    ls
}

/// Divides the `count` gathered rows of `oi` by their sums of weights and writes
/// them to the output rows from `first` on.
fn store_rows<T: Scalar>(
    req: &KernelReq,
    d: usize,
    head: usize,
    first: usize,
    count: usize,
    ls: &Vec<T>,
    oi: &mut [T],
    mem: &mut [T],
    Ghost(b): Ghost<Block<T>>,
    Ghost(bn): Ghost<nat>,
    Ghost(masks): Ghost<Seq<bool>>,
)
    requires
        functional::<T>(),
        b.req == *req,
        b.d() == d,
        b.head == head,
        count <= bn,
        first + count <= req.n,
        ls@.len() == bn,
        old(oi)@.len() == bn * d,
        forall|r: int|
            0 <= r < count ==> #[trigger] row_ok::<T>(
                old(mem)@.len(),
                req.o,
                req.o_strides,
                head as int,
                first + r,
                d as nat,
            ),
        forall|r: int|
            0 <= r < count ==> #[trigger] ls@[r] == b.state(
                old(mem)@,
                masks,
                first + r,
                b.page_count() as nat,
            ).l,
        forall|r: int|
            0 <= r < count ==> #[trigger] rows(old(oi)@, bn, d as nat)[r] == b.state(
                old(mem)@,
                masks,
                first + r,
                b.page_count() as nat,
            ).acc,
    ensures
        final(oi)@.len() == old(oi)@.len(),
        rows(final(oi)@, bn, d as nat) == Seq::new(
            bn,
            |r: int|
                if r < count {
                    b.row(old(mem)@, masks, first + r)
                } else {
                    rows(old(oi)@, bn, d as nat)[r]
                },
        ),
        final(mem)@.len() == old(mem)@.len(),
        final(mem)@ == b.stored(old(mem)@, old(mem)@, masks, first as int, count as nat),
{
    let len: usize = mem.len();
    let oi_len: usize = oi.len();
    let ghost src = mem@;
    let ghost oi0 = rows(oi@, bn, d as nat);
    let mut it: usize = 0;
    while it < count
        invariant
            functional::<T>(),
            b.req == *req,
            b.d() == d,
            b.head == head,
            it <= count <= bn,
            first + count <= req.n,
            ls@.len() == bn,
            oi_len == oi@.len(),
            oi_len == bn * d,
            len == mem@.len(),
            src.len() == len,
            oi0.len() == bn,
            forall|r: int|
                0 <= r < count ==> #[trigger] row_ok::<T>(
                    len as nat,
                    req.o,
                    req.o_strides,
                    head as int,
                    first + r,
                    d as nat,
                ),
            forall|r: int|
                0 <= r < count ==> #[trigger] ls@[r] == b.state(
                    src,
                    masks,
                    first + r,
                    b.page_count() as nat,
                ).l,
            forall|r: int|
                0 <= r < count ==> #[trigger] oi0[r] == b.state(
                    src,
                    masks,
                    first + r,
                    b.page_count() as nat,
                ).acc,
            rows(oi@, bn, d as nat) == Seq::new(
                bn,
                |r: int| if r < it { b.row(src, masks, first + r) } else { oi0[r] },
            ),
            mem@ == b.stored(src, src, masks, first as int, it as nat),
        decreases count - it,
    {
        let iq: usize = first + it;
        let l: T = ls[it];
        proof {
            lemma_row_fits(it as int, bn as int, d as int);
        }
        assert(row_ok::<T>(len as nat, req.o, req.o_strides, head as int, first + it, d as nat));
        let offset: isize = req.o_strides.offset(head, iq);
        let at: usize = locate::<T>(mem, req.o, offset, d);
        let from: usize = it * d;
        let ghost st = b.state(src, masks, iq as int, b.page_count() as nat);
        let ghost out = b.row(src, masks, iq as int);
        let ghost oi1 = oi@;
        let ghost mem1 = mem@;
        assert(rows(oi1, bn, d as nat)[it as int] == oi0[it as int]);
        assert(oi0[it as int] == st.acc);
        assert(forall|t: int| 0 <= t < d ==> #[trigger] read(oi1, from as int, d as nat)[t] == st.acc[t]);
        for t in 0..d
            invariant
                functional::<T>(),
                d == b.d(),
                len == mem@.len(),
                len == mem1.len(),
                at + d <= len,
                oi_len == oi@.len(),
                oi_len == oi1.len(),
                from + d <= oi_len,
                l == st.l,
                st.acc.len() == d,
                out == output(st),
                forall|t: int|
                    0 <= t < d ==> #[trigger] read(oi1, from as int, d as nat)[t] == st.acc[t],
                oi@ =~= put(oi1, from as int, out.take(t as int)),
                mem@ =~= put(mem1, at as int, out.take(t as int)),
        {
            assert(oi1[from + t] == read(oi1, from as int, d as nat)[t as int]);
            let y = oi[from + t].over(l);
            oi[from + t] = y;
            mem[at + t] = y;
        }
        proof {
            assert(out.take(d as int) =~= out);
            lemma_put_row(oi1, bn, d as nat, it as int, out);
        }
        it = it + 1;
    }
}

/// Computes the tile of `bn` query rows that starts at row `first`.
pub(crate) fn run_tile<T: Scalar>(
    cfg: &KernelCfg<T>,
    cache_pages: &[KVPage],
    req: &KernelReq,
    head: usize,
    bn: usize,
    first: usize,
    masks: &[bool],
    qi: &mut [T],
    oi: &mut [T],
    kj: &mut [T],
    vj: &mut [T],
    x: &mut [T],
    mem: &mut [T],
    Ghost(b): Ghost<Block<T>>,
)
    requires
        functional::<T>(),
        b.cfg == *cfg,
        b.pages == cache_pages@,
        b.req == *req,
        b.head == head,
        b.attn_ok(old(mem)@.len(), masks@.len()),
        bn > 0,
        first < req.n,
        old(qi)@.len() == bn * cfg.d,
        old(oi)@.len() == bn * cfg.d,
        old(kj)@.len() == cfg.bs * cfg.d,
        old(vj)@.len() == cfg.bs * cfg.d,
        old(x)@.len() == bn * cfg.bs,
    ensures
        final(qi)@.len() == old(qi)@.len(),
        final(oi)@.len() == old(oi)@.len(),
        final(kj)@.len() == old(kj)@.len(),
        final(vj)@.len() == old(vj)@.len(),
        final(x)@.len() == old(x)@.len(),
        final(mem)@.len() == old(mem)@.len(),
        final(mem)@ == b.stored(
            old(mem)@,
            old(mem)@,
            masks@,
            first as int,
            b.tile_rows(first as int, bn as int) as nat,
        ),
        tile_rows_of(
            final(qi)@,
            final(oi)@,
            final(kj)@,
            final(vj)@,
            final(x)@,
            bn as nat,
            cfg.bs as nat,
            b.d(),
        ) == b.tile_work(
            tile_rows_of(
                old(qi)@,
                old(oi)@,
                old(kj)@,
                old(vj)@,
                old(x)@,
                bn as nat,
                cfg.bs as nat,
                b.d(),
            ),
            old(mem)@,
            masks@,
            first as int,
            bn as int,
        ),
{
    let d: usize = cfg.d;
    let left: usize = req.n - first;
    let count: usize = if left < bn {
        left
    } else {
        bn
    };
    let ghost src = mem@;
    let ghost before = tile_rows_of(qi@, oi@, kj@, vj@, x@, bn as nat, cfg.bs as nat, b.d());
    load_queries(req, d, head, first, bn, mem, qi, Ghost(b));
    proof {
        assert forall|r: int| 0 <= r < count implies #[trigger] rows(qi@, bn as nat, b.d())[r]
            == b.query(mem@, first + r) by {
            assert(b.query_ok(mem@.len(), masks@.len(), first + r));
        }
    }
    let z = T::zero();
    let oi_len: usize = oi.len();
    for t in 0..oi_len
        invariant
            oi_len == oi@.len(),
            forall|i: int| 0 <= i < t ==> #[trigger] oi@[i] == z,
    {
        oi[t] = z;
    }
    proof {
        assert forall|r: int| 0 <= r < bn implies #[trigger] rows(oi@, bn as nat, b.d())[r] == fresh::<
            T,
        >(b.d()).acc by {
            lemma_row_fits(r, bn as int, d as int);
            assert(rows(oi@, bn as nat, b.d())[r] =~= fresh::<T>(b.d()).acc);
        }
    }
    let ls = attend_pages(
        cfg,
        cache_pages,
        req,
        head,
        bn,
        first,
        count,
        mem,
        masks,
        qi,
        oi,
        kj,
        vj,
        x,
        Ghost(b),
    );
    proof {
        assert forall|r: int| 0 <= r < count implies #[trigger] row_ok::<T>(
            mem@.len(),
            req.o,
            req.o_strides,
            head as int,
            first + r,
            d as nat,
        ) by {
            assert(b.query_ok(mem@.len(), masks@.len(), first + r));
        }
    }
    store_rows(req, d, head, first, count, &ls, oi, mem, Ghost(b), Ghost(bn as nat), Ghost(masks@));
    proof {
        let after = tile_rows_of(qi@, oi@, kj@, vj@, x@, bn as nat, cfg.bs as nat, b.d());
        let want = b.tile_work(before, src, masks@, first as int, bn as int);
        assert(after.q =~= want.q);
        assert(after.o =~= want.o);
        assert(after.k =~= want.k);
        assert(after.v =~= want.v);
        assert(after.x =~= want.x);
    }
}

/// The five parts of a workspace as rows.
pub(crate) open spec fn tile_rows_of<T>(
    qi: Seq<T>,
    oi: Seq<T>,
    kj: Seq<T>,
    vj: Seq<T>,
    x: Seq<T>,
    bn: nat,
    bs: nat,
    d: nat,
) -> Work<T> {
    Work {
        q: rows(qi, bn, d),
        o: rows(oi, bn, d),
        k: rows(kj, bs, d),
        v: rows(vj, bs, d),
        x: rows(x, bn, bs),
    }
}

} // verus!
