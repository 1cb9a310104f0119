//! The workspace of `flash_attn_block`.
use crate::attention::block::{work_len, work_of};
use crate::attention::cpu::{block_of, flash_attn_block};
use crate::attention::online::lemma_row_fits;
use crate::attention::{KVPage, KernelCfg, KernelReq};
use crate::ceil::{ceil_div, lemma_ceil_div};
use crate::laws::plain::attend::{lemma_tiles, look, page_number, rows_of_tiles, written_in_turn};
use crate::laws::plain::{lemma_row, reachable};
use crate::scalar::{zero, Scalar};
use vstd::prelude::*;

verus! {

/// Element `e` of query row `r` in a workspace.
pub open spec fn query_part<T>(w: Seq<T>, d: int, r: int, e: int) -> T {
    w[r * d + e]
}

/// Element `e` of output row `r` in a workspace of `bn` rows: after the query rows.
pub open spec fn output_part<T>(w: Seq<T>, bn: int, d: int, r: int, e: int) -> T {
    w[bn * d + (r * d + e)]
}

/// Element `e` of key row `i`: after the output rows.
pub open spec fn key_part<T>(w: Seq<T>, bn: int, d: int, i: int, e: int) -> T {
    w[2 * (bn * d) + (i * d + e)]
}

/// Element `e` of value row `i`: after the `bs` key rows.
pub open spec fn value_part<T>(w: Seq<T>, bn: int, bs: int, d: int, i: int, e: int) -> T {
    w[2 * (bn * d) + bs * d + (i * d + e)]
}

/// The weight of page row `i` for query row `r`: after the `bs` value rows.
pub open spec fn weight_part<T>(w: Seq<T>, bn: int, bs: int, d: int, r: int, i: int) -> T {
    w[2 * (bn * d) + 2 * (bs * d) + (r * bs + i)]
}

/// Query row `iq`, be it of the request or past its last, can be loaded.
pub open spec fn can_be_loaded<T>(req: KernelReq, head: int, d: int, len: int, iq: int) -> bool {
    &&& iq <= usize::MAX
    &&& reachable::<T>(
        len,
        req.q as int,
        req.q_strides.head as int,
        req.q_strides.seq as int,
        head,
        iq,
        d,
    )
}

/// `now` is in the workspace after the tile of query rows from `first` on, `was` before
/// it, with `mem` in the memory before it.
pub open spec fn tile_is_worked<T: Scalar>(
    cfg: KernelCfg<T>,
    pages: Seq<KVPage>,
    reqs: Seq<KernelReq>,
    ireq: int,
    head: int,
    bn: int,
    masks: Seq<bool>,
    mem: Seq<T>,
    first: int,
    was: Seq<T>,
    now: Seq<T>,
) -> bool {
    let (d, bs) = (cfg.d as int, cfg.bs as int);
    let req = reqs[ireq];
    let count = page_number(req.s_ceil as int, bs);
    &&& now.len() == was.len()
    // every query row that can be loaded, the others as they were
    &&& forall|r: int, e: int|
        0 <= r < bn && 0 <= e < d ==> #[trigger] query_part(now, cfg.d as int, r, e) == (
        if can_be_loaded::<T>(req, head, d, mem.len() as int, first + r) {
            look(cfg, pages, reqs, ireq, head, masks, mem, first + r).query(e)
        } else {
            query_part(was, d, r, e)
        })
    // the output rows of the request, zero past its last
    &&& forall|r: int, e: int|
        0 <= r < bn && 0 <= e < d ==> #[trigger] output_part(now, bn, cfg.d as int, r, e) == (
        if first + r < req.n {
            look(cfg, pages, reqs, ireq, head, masks, mem, first + r).out(e)
        } else {
            zero()
        })
    // the rows of the last page, if there is any
    &&& forall|i: int, e: int|
        0 <= i < bs && 0 <= e < d ==> #[trigger] key_part(now, bn, cfg.d as int, i, e) == (
        if count > 0 {
            look(cfg, pages, reqs, ireq, head, masks, mem, first).key((count - 1) * bs + i, e)
        } else {
            key_part(was, bn, d, i, e)
        })
    &&& forall|i: int, e: int|
        0 <= i < bs && 0 <= e < d ==> #[trigger] value_part(
            now,
            bn,
            cfg.bs as int,
            cfg.d as int,
            i,
            e,
        ) == (if count > 0 {
            look(cfg, pages, reqs, ireq, head, masks, mem, first).val((count - 1) * bs + i, e)
        } else {
            value_part(was, bn, bs, d, i, e)
        })
    // the weights of the last page for the query rows of the request
    &&& forall|r: int, i: int|
        0 <= r < bn && 0 <= i < bs ==> #[trigger] weight_part(
            now,
            bn,
            cfg.bs as int,
            cfg.d as int,
            r,
            i,
        ) == (if first + r < req.n && count > 0 {
            look(cfg, pages, reqs, ireq, head, masks, mem, first + r).weight(count - 1, i)
        } else {
            weight_part(was, bn, bs, d, r, i)
        })
}

/// A call of `flash_attn_block` leaves in the workspace what its last tile left there:
/// `work(t)` is the workspace after the first `t` tiles, and `after` is as in
/// `attention_is_written_in_turn`.
pub proof fn workspace_is_filled_in_turn<T: Scalar>(
    cfg: KernelCfg<T>,
    pages: &[KVPage],
    reqs: &[KernelReq],
    ireq: usize,
    head: usize,
    bn: usize,
    shared: &mut [T],
    masks: &[bool],
    mem: &mut [T],
    after: spec_fn(int) -> Seq<T>,
    work: spec_fn(int) -> Seq<T>,
)
    requires
        call_ensures(
            flash_attn_block::<T>,
            (cfg, pages, reqs, ireq, head, bn, shared, masks, mem),
            (),
        ),
        bn > 0,
        cfg.bs > 0,
        reqs@[ireq as int].n > 0 && reqs@[ireq as int].s_ceil > 0 ==> cfg.g > 0,
        old(shared)@.len() == 2 * (bn * cfg.d) + 2 * (cfg.bs * cfg.d) + bn * cfg.bs,
        written_in_turn(
            cfg,
            pages@,
            reqs@,
            ireq as int,
            head as int,
            bn as int,
            masks@,
            old(mem)@,
            after,
        ),
        work(0) == old(shared)@,
        forall|t: int|
            0 < t <= page_number(reqs@[ireq as int].n as int, bn as int) ==> tile_is_worked(
                cfg,
                pages@,
                reqs@,
                ireq as int,
                head as int,
                bn as int,
                masks@,
                after((t - 1) * bn),
                (t - 1) * bn,
                work(t - 1),
                #[trigger] work(t),
            ),
    ensures
        final(shared)@ == work(page_number(reqs@[ireq as int].n as int, bn as int)),
{
    let n = reqs@[ireq as int].n as int;
    let tiles = ceil_div(n, bn as int);
    lemma_ceil_div(n, bn as int);
    assert(tiles == page_number(n, bn as int));
    lemma_work(
        cfg,
        pages@,
        reqs@,
        ireq as int,
        head as int,
        bn as nat,
        masks@,
        old(mem)@,
        old(shared)@,
        after,
        work,
        tiles as nat,
    );
    lemma_same(final(shared)@, work(tiles), bn as nat, cfg.bs as nat, cfg.d as nat);
}

/// Rows of a workspace, element by element.
proof fn lemma_parts<T>(w: Seq<T>, bn: nat, bs: nat, d: nat)
    requires
        w.len() == work_len(bn as int, bs as int, d as int),
    ensures
        forall|r: int, e: int|
            0 <= r < bn && 0 <= e < d ==> #[trigger] work_of(w, bn, bs, d).q[r][e] == query_part(
                w,
                d as int,
                r,
                e,
            ),
        forall|r: int, e: int|
            0 <= r < bn && 0 <= e < d ==> #[trigger] work_of(w, bn, bs, d).o[r][e] == output_part(
                w,
                bn as int,
                d as int,
                r,
                e,
            ),
        forall|i: int, e: int|
            0 <= i < bs && 0 <= e < d ==> #[trigger] work_of(w, bn, bs, d).k[i][e] == key_part(
                w,
                bn as int,
                d as int,
                i,
                e,
            ),
        forall|i: int, e: int|
            0 <= i < bs && 0 <= e < d ==> #[trigger] work_of(w, bn, bs, d).v[i][e] == value_part(
                w,
                bn as int,
                bs as int,
                d as int,
                i,
                e,
            ),
        forall|r: int, i: int|
            0 <= r < bn && 0 <= i < bs ==> #[trigger] work_of(w, bn, bs, d).x[r][i] == weight_part(
                w,
                bn as int,
                bs as int,
                d as int,
                r,
                i,
            ),
{
    assert(bn * d >= 0 && bs * d >= 0 && bn * bs >= 0) by (nonlinear_arith);
    let p = work_of(w, bn, bs, d);
    assert forall|r: int, e: int| 0 <= r < bn && 0 <= e < d implies #[trigger] p.q[r][e]
        == query_part(w, d as int, r, e) by {
        lemma_row_fits(r, bn as int, d as int);
    }
    assert forall|r: int, e: int| 0 <= r < bn && 0 <= e < d implies #[trigger] p.o[r][e]
        == output_part(w, bn as int, d as int, r, e) by {
        lemma_row_fits(r, bn as int, d as int);
    }
    assert forall|i: int, e: int| 0 <= i < bs && 0 <= e < d implies #[trigger] p.k[i][e]
        == key_part(w, bn as int, d as int, i, e) by {
        lemma_row_fits(i, bs as int, d as int);
    }
    assert forall|i: int, e: int| 0 <= i < bs && 0 <= e < d implies #[trigger] p.v[i][e]
        == value_part(w, bn as int, bs as int, d as int, i, e) by {
        lemma_row_fits(i, bs as int, d as int);
    }
    assert forall|r: int, i: int| 0 <= r < bn && 0 <= i < bs implies #[trigger] p.x[r][i]
        == weight_part(w, bn as int, bs as int, d as int, r, i) by {
        lemma_row_fits(r, bn as int, bs as int);
    }
}

/// The row and the element of position `u` among `count` rows of `d` elements.
proof fn lemma_split(u: int, count: int, d: int)
    requires
        0 <= d,
        0 <= count,
        0 <= u < count * d,
    ensures
        d > 0,
        0 <= u / d < count,
        0 <= u % d < d,
        u == (u / d) * d + u % d,
{
    assert(d > 0) by (nonlinear_arith)
        requires
            0 <= d,
            0 <= u < count * d,
    ;
    vstd::arithmetic::div_mod::lemma_fundamental_div_mod(u, d);
    vstd::arithmetic::div_mod::lemma_div_pos_is_pos(u, d);
    let q = u / d;
    assert(q < count && d * q == q * d) by (nonlinear_arith)
        requires
            u == d * q + u % d,
            0 <= u % d,
            u < count * d,
            d > 0,
    ;
}

/// Workspaces of the same rows are the same.
proof fn lemma_same<T>(a: Seq<T>, b: Seq<T>, bn: nat, bs: nat, d: nat)
    requires
        a.len() == work_len(bn as int, bs as int, d as int),
        b.len() == a.len(),
        work_of(a, bn, bs, d) == work_of(b, bn, bs, d),
    ensures
        a == b,
{
    lemma_parts(a, bn, bs, d);
    lemma_parts(b, bn, bs, d);
    let p = work_of(a, bn, bs, d);
    let (cn, cs, c) = (bn as int, bs as int, d as int);
    assert forall|u: int| 0 <= u < a.len() implies a[u] == b[u] by {
        let o = cn * c;
        let k = 2 * (cn * c);
        let v = k + cs * c;
        let x = k + 2 * (cs * c);
        if u < o {
            lemma_split(u, cn, c);
            let (r, e) = (u / c, u % c);
            assert(p.q[r][e] == query_part(a, c, r, e));
            assert(p.q[r][e] == query_part(b, c, r, e));
        } else if u < k {
            lemma_split(u - o, cn, c);
            let (r, e) = ((u - o) / c, (u - o) % c);
            assert(p.o[r][e] == output_part(a, cn, c, r, e));
            assert(p.o[r][e] == output_part(b, cn, c, r, e));
        } else if u < v {
            lemma_split(u - k, cs, c);
            let (r, e) = ((u - k) / c, (u - k) % c);
            assert(p.k[r][e] == key_part(a, cn, c, r, e));
            assert(p.k[r][e] == key_part(b, cn, c, r, e));
        } else if u < x {
            lemma_split(u - v, cs, c);
            let (r, e) = ((u - v) / c, (u - v) % c);
            assert(p.v[r][e] == value_part(a, cn, cs, c, r, e));
            assert(p.v[r][e] == value_part(b, cn, cs, c, r, e));
        } else {
            lemma_split(u - x, cn, cs);
            let (r, i) = ((u - x) / cs, (u - x) % cs);
            assert(p.x[r][i] == weight_part(a, cn, cs, c, r, i));
            assert(p.x[r][i] == weight_part(b, cn, cs, c, r, i));
        }
    }
    assert(a =~= b);
}

proof fn lemma_work<T: Scalar>(
    cfg: KernelCfg<T>,
    pages: Seq<KVPage>,
    reqs: Seq<KernelReq>,
    ireq: int,
    head: int,
    bn: nat,
    masks: Seq<bool>,
    mem: Seq<T>,
    shared: Seq<T>,
    after: spec_fn(int) -> Seq<T>,
    work: spec_fn(int) -> Seq<T>,
    t: nat,
)
    requires
        bn > 0,
        cfg.bs > 0,
        0 <= head <= usize::MAX,
        reqs[ireq].n > 0 && reqs[ireq].s_ceil > 0 ==> cfg.g > 0,
        shared.len() == work_len(bn as int, cfg.bs as int, cfg.d as int),
        written_in_turn(cfg, pages, reqs, ireq, head, bn as int, masks, mem, after),
        work(0) == shared,
        forall|t: int|
            0 < t <= page_number(reqs[ireq].n as int, bn as int) ==> tile_is_worked(
                cfg,
                pages,
                reqs,
                ireq,
                head,
                bn as int,
                masks,
                after((t - 1) * bn),
                (t - 1) * bn,
                work(t - 1),
                #[trigger] work(t),
            ),
        t <= ceil_div(reqs[ireq].n as int, bn as int),
    ensures
        work(t as int).len() == shared.len(),
        work_of(work(t as int), bn, cfg.bs as nat, cfg.d as nat) == block_of(
            cfg,
            pages,
            reqs,
            ireq,
            head,
        ).tiled_work(work_of(shared, bn, cfg.bs as nat, cfg.d as nat), mem, masks, bn as int, t),
    decreases t,
{
    let n = reqs[ireq].n as int;
    let b = block_of(cfg, pages, reqs, ireq, head);
    if t > 0 {
        let c = t - 1;
        let first = c * bn;
        lemma_ceil_div(n, bn as int);
        assert(c * bn < n);
        assert(0 <= c * bn) by (nonlinear_arith)
            requires
                c >= 0,
        ;
        lemma_work(
            cfg,
            pages,
            reqs,
            ireq,
            head,
            bn,
            masks,
            mem,
            shared,
            after,
            work,
            c as nat,
        );
        lemma_tiles(cfg, pages, reqs, ireq, head, bn as int, masks, mem, after, c as nat);
        assert(rows_of_tiles(n, bn as int, c) == first);
        assert(tile_is_worked(
            cfg,
            pages,
            reqs,
            ireq,
            head,
            bn as int,
            masks,
            after((t - 1) * bn),
            (t - 1) * bn,
            work(t - 1),
            work(t as int),
        ));
        assert(after(first).len() == mem.len());
        lemma_tile_work(
            cfg,
            pages,
            reqs,
            ireq,
            head,
            bn,
            masks,
            after(first),
            first,
            work(c),
            work(t as int),
        );
    }
}

proof fn lemma_tile_work<T: Scalar>(
    cfg: KernelCfg<T>,
    pages: Seq<KVPage>,
    reqs: Seq<KernelReq>,
    ireq: int,
    head: int,
    bn: nat,
    masks: Seq<bool>,
    mem: Seq<T>,
    first: int,
    was: Seq<T>,
    now: Seq<T>,
)
    requires
        bn > 0,
        cfg.bs > 0,
        0 <= head <= usize::MAX,
        reqs[ireq].s_ceil > 0 ==> cfg.g > 0,
        0 <= first < reqs[ireq].n,
        was.len() == work_len(bn as int, cfg.bs as int, cfg.d as int),
        tile_is_worked(
            cfg,
            pages,
            reqs,
            ireq,
            head,
            bn as int,
            masks,
            mem,
            first,
            was,
            now,
        ),
    ensures
        work_of(now, bn, cfg.bs as nat, cfg.d as nat) == block_of(
            cfg,
            pages,
            reqs,
            ireq,
            head,
        ).tile_work(work_of(was, bn, cfg.bs as nat, cfg.d as nat), mem, masks, first, bn as int),
{
    let req = reqs[ireq];
    let b = block_of(cfg, pages, reqs, ireq, head);
    let (bs, d) = (cfg.bs as nat, cfg.d as nat);
    let (cn, cs, c) = (bn as int, bs as int, d as int);
    let old_w = work_of(was, bn, bs, d);
    let new_w = work_of(now, bn, bs, d);
    let want = b.tile_work(old_w, mem, masks, first, cn);
    let l0 = look(cfg, pages, reqs, ireq, head, masks, mem, first);
    l0.lemma_pages_of();
    assert(l0.block() == b);
    let count = page_number(req.s_ceil as int, cs);
    lemma_parts(was, bn, bs, d);
    lemma_parts(now, bn, bs, d);
    assert forall|r: int| 0 <= r < bn implies #[trigger] new_w.q[r] =~= want.q[r] by {
        let l = look(cfg, pages, reqs, ireq, head, masks, mem, first + r);
        if first + r <= usize::MAX {
            lemma_row::<T>(mem.len(), req.q, req.q_strides, head, first + r, d);
        }
        assert forall|e: int| 0 <= e < d implies new_w.q[r][e] == want.q[r][e] by {
            assert(new_w.q[r][e] == query_part(now, c, r, e));
            assert(old_w.q[r][e] == query_part(was, c, r, e));
        }
    }
    assert(new_w.q =~= want.q);
    assert forall|r: int| 0 <= r < bn implies #[trigger] new_w.o[r] =~= want.o[r] by {
        let l = look(cfg, pages, reqs, ireq, head, masks, mem, first + r);
        if first + r < req.n {
            l.lemma_out();
            assert(l.block() == b);
        }
        assert forall|e: int| 0 <= e < d implies new_w.o[r][e] == want.o[r][e] by {
            assert(new_w.o[r][e] == output_part(now, cn, c, r, e));
            if first + r < req.n {
                assert(b.row(mem, masks, first + r)[e] == l.out(e));
            }
        }
    }
    assert(new_w.o =~= want.o);
    assert forall|i: int| 0 <= i < bs implies #[trigger] new_w.k[i] =~= want.k[i] by {
        if count > 0 {
            l0.lemma_place(count - 1, i);
        }
        assert forall|e: int| 0 <= e < d implies new_w.k[i][e] == want.k[i][e] by {
            assert(new_w.k[i][e] == key_part(now, cn, c, i, e));
            assert(old_w.k[i][e] == key_part(was, cn, c, i, e));
            if count > 0 {
                assert(b.keys(mem, count - 1)[i][e] == l0.key((count - 1) * cs + i, e));
            }
        }
    }
    assert(new_w.k =~= want.k);
    assert forall|i: int| 0 <= i < bs implies #[trigger] new_w.v[i] =~= want.v[i] by {
        if count > 0 {
            l0.lemma_place(count - 1, i);
        }
        assert forall|e: int| 0 <= e < d implies new_w.v[i][e] == want.v[i][e] by {
            assert(new_w.v[i][e] == value_part(now, cn, cs, c, i, e));
            assert(old_w.v[i][e] == value_part(was, cn, cs, c, i, e));
            if count > 0 {
                assert(b.vals(mem, count - 1)[i][e] == l0.val((count - 1) * cs + i, e));
            }
        }
    }
    assert(new_w.v =~= want.v);
    assert forall|r: int| 0 <= r < bn implies #[trigger] new_w.x[r] =~= want.x[r] by {
        let l = look(cfg, pages, reqs, ireq, head, masks, mem, first + r);
        if first + r < req.n && count > 0 {
            l.lemma_scores(count - 1);
            l.lemma_state(count as nat);
            assert(l.block() == b);
        }
        assert forall|i: int| 0 <= i < bs implies new_w.x[r][i] == want.x[r][i] by {
            assert(new_w.x[r][i] == weight_part(now, cn, cs, c, r, i));
            assert(old_w.x[r][i] == weight_part(was, cn, cs, c, r, i));
        }
    }
    assert(new_w.x =~= want.x);
}

} // verus!
