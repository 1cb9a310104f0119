//! `cache_concat_block`.
use crate::attention::block::Block;
use crate::attention::cpu::{block_of, cache_concat_block};
use crate::attention::{KVPage, KernelCfg, KernelReq};
use crate::laws::concat::clean;
use crate::laws::plain::{address, lemma_row, position, reachable};
use crate::memory::{apply, read, Move};
use vstd::prelude::*;

verus! {

/// The position of new key row `i` of a head.
pub open spec fn new_key<T>(req: KernelReq, head: int, i: int) -> int {
    position::<T>(
        address(req.k as int, req.k_strides.head as int, req.k_strides.seq as int, head, i),
    )
}

/// The position of new value row `i` of a head.
pub open spec fn new_val<T>(req: KernelReq, head: int, i: int) -> int {
    position::<T>(
        address(req.v as int, req.v_strides.head as int, req.v_strides.seq as int, head, i),
    )
}

/// The position of the key at place `p` of a request's sequence: the page is
/// found in the list of all pages, counted from the request's first.
pub open spec fn cached_key<T>(
    pages: Seq<KVPage>,
    bs: int,
    req: KernelReq,
    head: int,
    p: int,
) -> int {
    position::<T>(
        address(
            pages[req.pages_start + p / bs].k as int,
            req.kv_strides.head as int,
            req.kv_strides.seq as int,
            head,
            p % bs,
        ),
    )
}

/// The position of the value at place `p` of a request's sequence.
pub open spec fn cached_val<T>(
    pages: Seq<KVPage>,
    bs: int,
    req: KernelReq,
    head: int,
    p: int,
) -> int {
    position::<T>(
        address(
            pages[req.pages_start + p / bs].v as int,
            req.kv_strides.head as int,
            req.kv_strides.seq as int,
            head,
            p % bs,
        ),
    )
}

/// The rows that a block copies, and where to.
proof fn lemma_rows<T, S>(
    cfg: KernelCfg<S>,
    pages: Seq<KVPage>,
    reqs: Seq<KernelReq>,
    ireq: int,
    head: int,
    i: int,
)
    requires
        cfg.bs > 0,
        reqs[ireq].n <= reqs[ireq].s,
        0 <= head <= usize::MAX,
        0 <= i < reqs[ireq].n,
    ensures
        ({
            let b = block_of(cfg, pages, reqs, ireq, head);
            let req = reqs[ireq];
            let p = req.s - req.n + i;
            &&& b.d() == cfg.d
            &&& b.req == req
            &&& b.k_src::<T>(i) == new_key::<T>(req, head, i)
            &&& b.v_src::<T>(i) == new_val::<T>(req, head, i)
            &&& b.k_dst::<T>(i) == cached_key::<T>(pages, cfg.bs as int, req, head, p)
            &&& b.v_dst::<T>(i) == cached_val::<T>(pages, cfg.bs as int, req, head, p)
        }),
{
    let req = reqs[ireq];
    let p = req.s - req.n + i;
    let page = pages[req.pages_start + p / (cfg.bs as int)];
    vstd::arithmetic::div_mod::lemma_mod_bound(p, cfg.bs as int);
    lemma_row::<T>(0, req.k, req.k_strides, head, i, 0);
    lemma_row::<T>(0, req.v, req.v_strides, head, i, 0);
    lemma_row::<T>(0, page.k, req.kv_strides, head, p % (cfg.bs as int), 0);
    lemma_row::<T>(0, page.v, req.kv_strides, head, p % (cfg.bs as int), 0);
}

/// `before(i, e)` is the memory before element `e` of new row `i` is copied, for every
/// row and element: row after row and element after element, the key before the value.
pub open spec fn copied_in_turn<T>(
    d: int,
    bs: int,
    pages: Seq<KVPage>,
    req: KernelReq,
    head: int,
    mem: Seq<T>,
    before: spec_fn(int, int) -> Seq<T>,
) -> bool {
    &&& before(0, 0) == mem
    &&& forall|i: int, e: int|
        0 <= i < req.n && 0 <= e < d ==> {
            let p = req.s - req.n + i;
            let m = #[trigger] before(i, e);
            let keyed = m.update(
                cached_key::<T>(pages, bs, req, head, p) + e,
                m[new_key::<T>(req, head, i) + e],
            );
            before(i, e + 1) == keyed.update(
                cached_val::<T>(pages, bs, req, head, p) + e,
                keyed[new_val::<T>(req, head, i) + e],
            )
        }
    &&& forall|i: int| 0 < i <= req.n ==> #[trigger] before(i, 0) == before(i - 1, d)
}

/// A call of `cache_concat_block` copies row after row and element after element,
/// the key before the value: new row `i` of the request goes to place `s - n + i`
/// of its sequence, which is row `(s - n + i) % bs` of the page that stands
/// `(s - n + i) / bs` after the request's first in the list of pages. `before`
/// gives the memory before each element; nothing is asked of where the rows lie.
pub proof fn append_goes_row_by_row<T: Copy, S>(
    cfg: KernelCfg<S>,
    pages: &[KVPage],
    reqs: &[KernelReq],
    ireq: usize,
    head: usize,
    mem: &mut [T],
    before: spec_fn(int, int) -> Seq<T>,
)
    requires
        call_ensures(cache_concat_block::<T, S>, (cfg, pages, reqs, ireq, head, mem), ()),
        cfg.bs > 0,
        reqs@[ireq as int].n <= reqs@[ireq as int].s,
        copied_in_turn(
            cfg.d as int,
            cfg.bs as int,
            pages@,
            reqs@[ireq as int],
            head as int,
            old(mem)@,
            before,
        ),
    ensures
        final(mem)@ == before(reqs@[ireq as int].n as int, 0),
{
    let b = block_of(cfg, pages@, reqs@, ireq as int, head as int);
    lemma_runs(cfg, pages@, reqs@, ireq as int, head as int, old(mem)@, before, b.req.n as nat);
}

pub(crate) proof fn lemma_runs<T, S>(
    cfg: KernelCfg<S>,
    pages: Seq<KVPage>,
    reqs: Seq<KernelReq>,
    ireq: int,
    head: int,
    mem: Seq<T>,
    before: spec_fn(int, int) -> Seq<T>,
    i: nat,
)
    requires
        cfg.bs > 0,
        0 <= head <= usize::MAX,
        reqs[ireq].n <= reqs[ireq].s,
        i <= reqs[ireq].n,
        copied_in_turn(cfg.d as int, cfg.bs as int, pages, reqs[ireq], head, mem, before),
    ensures
        apply(mem, block_of(cfg, pages, reqs, ireq, head).moves::<T>(i)) == before(i as int, 0),
    decreases i,
{
    let b = block_of(cfg, pages, reqs, ireq, head);
    if i > 0 {
        let c = (i - 1) as nat;
        lemma_runs(cfg, pages, reqs, ireq, head, mem, before, c);
        lemma_rows::<T, S>(cfg, pages, reqs, ireq, head, c as int);
        let done = b.moves::<T>(c);
        let row = b.row_moves::<T>(c as int);
        lemma_row_runs(mem, done, row, before, b, c as int, cfg.d as nat);
        assert(row.take((2 * cfg.d) as int) =~= row);
        assert(before(i as int, 0) == before(c as int, cfg.d as int));
    }
}

proof fn lemma_row_runs<T, S>(
    mem: Seq<T>,
    done: Seq<Move>,
    row: Seq<Move>,
    before: spec_fn(int, int) -> Seq<T>,
    b: Block<S>,
    i: int,
    e: nat,
)
    requires
        row == b.row_moves::<T>(i),
        e <= b.d(),
        apply(mem, done) == before(i, 0),
        forall|e: int|
            0 <= e < b.d() ==> {
                let m = #[trigger] before(i, e);
                let keyed = m.update(b.k_dst::<T>(i) + e, m[b.k_src::<T>(i) + e]);
                before(i, e + 1) == keyed.update(
                    b.v_dst::<T>(i) + e,
                    keyed[b.v_src::<T>(i) + e],
                )
            },
    ensures
        apply(mem, done + row.take((2 * e) as int)) == before(i, e as int),
    decreases e,
{
    if e == 0 {
        assert(done + row.take(0) =~= done);
    } else {
        let c = e - 1;
        lemma_row_runs(mem, done, row, before, b, i, c as nat);
        let m0 = done + row.take(2 * c);
        let m1 = done + row.take(2 * c + 1);
        let m2 = done + row.take(2 * c + 2);
        assert(m1.drop_last() =~= m0);
        assert(m1.last() == row[2 * c]);
        assert(m2.drop_last() =~= m1);
        assert(m2.last() == row[2 * c + 1]);
        assert(row[2 * c] == (b.k_dst::<T>(i) + c, b.k_src::<T>(i) + c));
        assert(row[2 * c + 1] == (b.v_dst::<T>(i) + c, b.v_src::<T>(i) + c));
        let m = before(i, c);
        assert(m == apply(mem, m0));
        let keyed = m.update(b.k_dst::<T>(i) + c, m[b.k_src::<T>(i) + c]);
        assert(apply(mem, m1) == keyed);
        assert(apply(mem, m2) == keyed.update(b.v_dst::<T>(i) + c, keyed[b.v_src::<T>(i) + c]));
        assert(m2 =~= done + row.take((2 * e) as int));
    }
}

/// No row that a block writes overlaps another that it writes, or one that it
/// reads.
pub open spec fn rows_apart<T>(
    d: int,
    bs: int,
    pages: Seq<KVPage>,
    req: KernelReq,
    head: int,
) -> bool {
    let off = |a: int, b: int| a + d <= b || b + d <= a;
    let pos = req.s - req.n;
    forall|i: int, j: int|
        #![trigger new_key::<T>(req, head, i), new_key::<T>(req, head, j)]
        0 <= i < req.n && 0 <= j < req.n ==> {
            let ki = cached_key::<T>(pages, bs, req, head, pos + i);
            let vi = cached_val::<T>(pages, bs, req, head, pos + i);
            let kj = cached_key::<T>(pages, bs, req, head, pos + j);
            let vj = cached_val::<T>(pages, bs, req, head, pos + j);
            &&& i != j ==> off(ki, kj) && off(vi, vj)
            &&& off(ki, vj)
            &&& off(ki, new_key::<T>(req, head, j))
            &&& off(ki, new_val::<T>(req, head, j))
            &&& off(vi, new_key::<T>(req, head, j))
            &&& off(vi, new_val::<T>(req, head, j))
        }
}

/// After a call of `cache_concat_block`, place `s - n + i` of the request's
/// sequence holds new row `i`, key as key and value as value: in the page that
/// stands `(s - n + i) / bs` after the request's first in the list of pages,
/// wherever that first one is.
pub proof fn appended_rows_are_there<T: Copy, S>(
    cfg: KernelCfg<S>,
    pages: &[KVPage],
    reqs: &[KernelReq],
    ireq: usize,
    head: usize,
    mem: &mut [T],
    i: int,
    e: int,
)
    requires
        call_requires(cache_concat_block::<T, S>, (cfg, pages, reqs, ireq, head, mem)),
        call_ensures(cache_concat_block::<T, S>, (cfg, pages, reqs, ireq, head, mem), ()),
        append_fits::<T>(
            cfg.d as int,
            cfg.bs as int,
            pages@,
            reqs@[ireq as int],
            head as int,
            old(mem)@.len() as int,
        ),
        rows_apart::<T>(cfg.d as int, cfg.bs as int, pages@, reqs@[ireq as int], head as int),
        0 <= i < reqs@[ireq as int].n,
        0 <= e < cfg.d,
    ensures
        ({
            let req = reqs@[ireq as int];
            let p = req.s - req.n + i;
            let page = pages@[req.pages_start + p / (cfg.bs as int)];
            let row = p % (cfg.bs as int);
            let st = req.kv_strides;
            &&& final(mem)@[position::<T>(
                address(page.k as int, st.head as int, st.seq as int, head as int, row),
            ) + e] == old(mem)@[new_key::<T>(req, head as int, i) + e]
            &&& final(mem)@[position::<T>(
                address(page.v as int, st.head as int, st.seq as int, head as int, row),
            ) + e] == old(mem)@[new_val::<T>(req, head as int, i) + e]
        }),
{
    let req = reqs@[ireq as int];
    let d = cfg.d as int;
    let b = block_of(cfg, pages@, reqs@, ireq as int, head as int);
    let moves = b.concat_moves::<T>();
    lemma_append_fits::<T, S>(
        cfg,
        pages@,
        reqs@,
        ireq as int,
        head as int,
        old(mem)@.len(),
    );
    assert(new_row_fits::<T>(
        cfg.d as int,
        cfg.bs as int,
        pages@,
        req,
        head as int,
        old(mem)@.len() as int,
        i,
    ));
    assert(clean(moves)) by {
        assert forall|t: int, u: int| 0 <= t < u < moves.len() implies (#[trigger] moves[t]).0 != (
        #[trigger] moves[u]).1 && moves[t].0 != moves[u].0 by {
            let (x, a) = b.lemma_move_of::<T>(b.req.n as nat, t);
            let (y, c) = b.lemma_move_of::<T>(b.req.n as nat, u);
            lemma_rows::<T, S>(cfg, pages@, reqs@, ireq as int, head as int, x);
            lemma_rows::<T, S>(cfg, pages@, reqs@, ireq as int, head as int, y);
            let kx = new_key::<T>(req, head as int, x);
            let ky = new_key::<T>(req, head as int, y);
            if x == y {
                assert(a < c);
            }
        }
    }
    b.concat_reads_back(old(mem)@, i);
    lemma_rows::<T, S>(cfg, pages@, reqs@, ireq as int, head as int, i);
    let k = b.k_dst::<T>(i);
    let v = b.v_dst::<T>(i);
    assert(read(final(mem)@, k, b.d())[e] == read(old(mem)@, b.k_src::<T>(i), b.d())[e]);
    assert(read(final(mem)@, v, b.d())[e] == read(old(mem)@, b.v_src::<T>(i), b.d())[e]);
}

/// A call of `cache_concat_block` changes nothing but the places of the request's
/// new rows, in the request's own pages of the list: not the pages of other
/// requests, if they lie elsewhere.
pub proof fn append_leaves_the_rest<T: Copy, S>(
    cfg: KernelCfg<S>,
    pages: &[KVPage],
    reqs: &[KernelReq],
    ireq: usize,
    head: usize,
    mem: &mut [T],
    t: int,
)
    requires
        call_ensures(cache_concat_block::<T, S>, (cfg, pages, reqs, ireq, head, mem), ()),
        append_fits::<T>(
            cfg.d as int,
            cfg.bs as int,
            pages@,
            reqs@[ireq as int],
            head as int,
            old(mem)@.len() as int,
        ),
        0 <= t < old(mem)@.len(),
        forall|p: int|
            reqs@[ireq as int].s - reqs@[ireq as int].n <= p < reqs@[ireq as int].s ==> {
                let k = #[trigger] cached_key::<T>(
                    pages@,
                    cfg.bs as int,
                    reqs@[ireq as int],
                    head as int,
                    p,
                );
                let v = cached_val::<T>(
                    pages@,
                    cfg.bs as int,
                    reqs@[ireq as int],
                    head as int,
                    p,
                );
                !(k <= t < k + cfg.d) && !(v <= t < v + cfg.d)
            },
    ensures
        final(mem)@.len() == old(mem)@.len(),
        final(mem)@[t] == old(mem)@[t],
{
    let req = reqs@[ireq as int];
    let b = block_of(cfg, pages@, reqs@, ireq as int, head as int);
    lemma_append_fits::<T, S>(
        cfg,
        pages@,
        reqs@,
        ireq as int,
        head as int,
        old(mem)@.len(),
    );
    if b.taken::<T>(t) {
        let i = choose|i: int| #[trigger] b.takes::<T>(i, t);
        assert(new_row_fits::<T>(
        cfg.d as int,
        cfg.bs as int,
        pages@,
        req,
        head as int,
        old(mem)@.len() as int,
        i,
    ));
        lemma_rows::<T, S>(cfg, pages@, reqs@, ireq as int, head as int, i);
        let k = cached_key::<T>(pages@, cfg.bs as int, req, head as int, req.s - req.n + i);
    }
    b.concat_leaves_rest(old(mem)@, t);
}

/// New row `i` of a request and its place in the request's pages can be reached and
/// lie in a memory of `len` elements.
pub open spec fn new_row_fits<T>(
    d: int,
    bs: int,
    pages: Seq<KVPage>,
    req: KernelReq,
    head: int,
    len: int,
    i: int,
) -> bool {
    let p = req.s - req.n + i;
    let page = pages[req.pages_start + p / bs];
    let (kh, ks) = (req.k_strides.head as int, req.k_strides.seq as int);
    let (vh, vs) = (req.v_strides.head as int, req.v_strides.seq as int);
    let (ch, cs) = (req.kv_strides.head as int, req.kv_strides.seq as int);
    &&& bs > 0
    &&& req.pages_start + p / bs < pages.len()
    &&& reachable::<T>(len, req.k as int, kh, ks, head, i, d)
    &&& reachable::<T>(len, req.v as int, vh, vs, head, i, d)
    &&& reachable::<T>(len, page.k as int, ch, cs, head, p % bs, d)
    &&& reachable::<T>(len, page.v as int, ch, cs, head, p % bs, d)
}

/// What `cache_concat_block` needs: the new rows, and their places in the
/// request's pages, can be reached and lie in a memory of `len` elements.
pub open spec fn append_fits<T>(
    d: int,
    bs: int,
    pages: Seq<KVPage>,
    req: KernelReq,
    head: int,
    len: int,
) -> bool {
    &&& req.pages_start <= pages.len()
    &&& req.n <= req.s
    &&& forall|i: int|
        0 <= i < req.n ==> #[trigger] new_row_fits::<T>(d, bs, pages, req, head, len, i)
}

/// What a block needs is what its rows need.
pub(crate) proof fn lemma_append_fits<T, S>(
    cfg: KernelCfg<S>,
    pages: Seq<KVPage>,
    reqs: Seq<KernelReq>,
    ireq: int,
    head: int,
    len: nat,
)
    requires
        0 <= head <= usize::MAX,
    ensures
        block_of(cfg, pages, reqs, ireq, head).concat_ok::<T>(len) <==> append_fits::<T>(
            cfg.d as int,
            cfg.bs as int,
            pages,
            reqs[ireq],
            head,
            len as int,
        ),
{
    let req = reqs[ireq];
    let b = block_of(cfg, pages, reqs, ireq, head);
    let bs = cfg.bs as int;
    let d = cfg.d as int;
    if req.n <= req.s {
        assert forall|i: int| 0 <= i < req.n implies #[trigger] b.concat_row_ok::<T>(len, i)
            == new_row_fits::<T>(d, bs, pages, req, head, len as int, i) by {
            if bs > 0 {
                let p = req.s - req.n + i;
                let page = pages[req.pages_start + p / bs];
                vstd::arithmetic::div_mod::lemma_mod_bound(p, bs);
                lemma_row::<T>(len, req.k, req.k_strides, head, i, d as nat);
                lemma_row::<T>(len, req.v, req.v_strides, head, i, d as nat);
                lemma_row::<T>(len, page.k, req.kv_strides, head, p % bs, d as nat);
                lemma_row::<T>(len, page.v, req.kv_strides, head, p % bs, d as nat);
            }
        }
        if append_fits::<T>(d, bs, pages, req, head, len as int) {
            assert forall|i: int| 0 <= i < req.n implies #[trigger] b.concat_row_ok::<T>(
                len,
                i,
            ) by {
                assert(new_row_fits::<T>(d, bs, pages, req, head, len as int, i));
            }
        }
        if b.concat_ok::<T>(len) {
            assert forall|i: int| 0 <= i < req.n implies #[trigger] new_row_fits::<T>(
                d,
                bs,
                pages,
                req,
                head,
                len as int,
                i,
            ) by {
                assert(b.concat_row_ok::<T>(len, i));
            }
        }
    }
}

/// `cache_concat_block` can be called whenever its rows lie in the memory.
pub proof fn append_can_be_called<T: Copy, S>(
    cfg: KernelCfg<S>,
    pages: &[KVPage],
    reqs: &[KernelReq],
    ireq: usize,
    head: usize,
    mem: &mut [T],
)
    requires
        ireq < reqs@.len(),
        append_fits::<T>(
            cfg.d as int,
            cfg.bs as int,
            pages@,
            reqs@[ireq as int],
            head as int,
            old(mem)@.len() as int,
        ),
    ensures
        call_requires(cache_concat_block::<T, S>, (cfg, pages, reqs, ireq, head, mem)),
{
    lemma_append_fits::<T, S>(
        cfg,
        pages@,
        reqs@,
        ireq as int,
        head as int,
        old(mem)@.len(),
    );
}

} // verus!
