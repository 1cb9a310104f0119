//! Tensors that lie row after row, each in a range of its own.
use crate::attention::batch::Attention;
use crate::attention::block::row_at;
use crate::attention::{FlashAttnCfg, Strides2D};
use crate::laws::batch::pages_hold_sequence;
use crate::laws::concat::disjoint;
use crate::laws::request::Row;
use crate::memory::elem;
use vstd::prelude::*;

verus! {

/// The `la` positions from `a` on and the `lb` positions from `b` on have none in
/// common.
pub open spec fn ranges_apart(a: int, la: int, b: int, lb: int) -> bool {
    a + la <= b || b + lb <= a
}

/// The tensor of shape `[heads, n, d]` lies row after row, head after head.
pub open spec fn dense_rows<T>(strides: Strides2D, n: int, d: int) -> bool {
    &&& strides.head == n * (d * vstd::layout::size_of::<T>())
    &&& strides.seq == d * vstd::layout::size_of::<T>()
}

/// Multiples of the element size count elements.
proof fn lemma_elem_moved<T>(addr: int, m: int)
    requires
        vstd::layout::size_of::<T>() > 0,
    ensures
        elem::<T>(addr + m * vstd::layout::size_of::<T>()) == elem::<T>(addr) + m,
{
    let size = vstd::layout::size_of::<T>() as int;
    vstd::arithmetic::div_mod::lemma_fundamental_div_mod(addr, size);
    assert(addr + m * size == (addr / size + m) * size + addr % size) by (nonlinear_arith)
        requires
            addr == size * (addr / size) + addr % size,
    ;
    vstd::arithmetic::div_mod::lemma_fundamental_div_mod_converse(
        addr + m * size,
        size,
        addr / size + m,
        addr % size,
    );
}

/// Where row `i` of head `head` of a dense tensor lies.
proof fn lemma_dense_row<T>(
    base: usize,
    strides: Strides2D,
    heads: int,
    n: int,
    d: int,
    head: int,
    i: int,
)
    requires
        vstd::layout::size_of::<T>() > 0,
        dense_rows::<T>(strides, n, d),
        heads <= isize::MAX,
        n <= isize::MAX,
        d >= 0,
        0 <= head < heads,
        0 <= i < n,
    ensures
        row_at::<T>(base, strides, head, i) == elem::<T>(base as int) + (head * n + i) * d,
        0 <= head * n + i < heads * n,
{
    let size = vstd::layout::size_of::<T>() as int;
    let ds = d * size;
    assert(head * (n * ds) + i * ds == (head * n + i) * ds) by (nonlinear_arith);
    assert((head * n + i) * ds == (head * n + i) * d * size) by (nonlinear_arith)
        requires
            ds == d * size,
    ;
    crate::attention::online::lemma_row_fits(head, heads, n);
    lemma_elem_moved::<T>(base as int, (head * n + i) * d);
}

/// Rows of one tensor with different numbers do not overlap.
proof fn lemma_slots_apart(start: int, x: int, y: int, d: nat)
    requires
        x != y,
    ensures
        disjoint(start + x * d, start + y * d, d),
{
    if x < y {
        assert(x * d + d <= y * d) by (nonlinear_arith)
            requires
                x + 1 <= y,
                d >= 0,
        ;
    } else {
        assert(y * d + d <= x * d) by (nonlinear_arith)
            requires
                y + 1 <= x,
                d >= 0,
        ;
    }
}

/// Rows of two tensors in ranges that are apart do not overlap.
proof fn lemma_ranges_slots(a: int, na: int, x: int, b: int, nb: int, y: int, d: nat)
    requires
        ranges_apart(a, na * d, b, nb * d),
        0 <= x < na,
        0 <= y < nb,
    ensures
        disjoint(a + x * d, b + y * d, d),
{
    crate::attention::online::lemma_row_fits(x, na, d as int);
    crate::attention::online::lemma_row_fits(y, nb, d as int);
}

impl FlashAttnCfg {
    /// The position of the first element of the tensor that the row belongs to.
    pub open spec fn tensor_start<T>(self, req: Attention, row: Row) -> int {
        match row {
            Row::Query(head, i) => elem::<T>(req.q.base as int),
            Row::Output(head, i) => elem::<T>(req.o.base as int),
            Row::NewKey(head, i) => elem::<T>(req.k.base as int),
            Row::NewVal(head, i) => elem::<T>(req.v.base as int),
            Row::Key(head, p) => elem::<T>(req.cache.base + req.cache.offset),
            Row::Val(head, p) => elem::<T>(req.cache.base + req.cache.offset),
        }
    }

    /// Rows of the tensor that the row belongs to; of the cache, those of the
    /// request's pages.
    pub open spec fn tensor_rows(self, req: Attention, row: Row) -> int {
        match row {
            Row::Query(head, i) => self.h * req.n(),
            Row::Output(head, i) => self.h * req.n(),
            Row::NewKey(head, i) => self.kvh * req.n(),
            Row::NewVal(head, i) => self.kvh * req.n(),
            Row::Key(head, p) => req.page_count(self.tile_ctx as int) * self.tile_ctx * (2
                * self.kvh),
            Row::Val(head, p) => req.page_count(self.tile_ctx as int) * self.tile_ctx * (2
                * self.kvh),
        }
    }

    /// The number of the row in its tensor.
    pub open spec fn slot(self, req: Attention, row: Row) -> int {
        match row {
            Row::Query(head, i) => head * req.n() + i,
            Row::Output(head, i) => head * req.n() + i,
            Row::NewKey(head, i) => head * req.n() + i,
            Row::NewVal(head, i) => head * req.n() + i,
            Row::Key(head, p) => p * (2 * self.kvh) + head,
            Row::Val(head, p) => p * (2 * self.kvh) + (self.kvh + head),
        }
    }

    /// The tensors of the request lie row after row, and heads and rows can be
    /// counted in an `isize`.
    pub open spec fn dense<T>(self, req: Attention) -> bool {
        let ds = self.d * vstd::layout::size_of::<T>();
        &&& vstd::layout::size_of::<T>() > 0
        &&& self.h <= isize::MAX
        &&& self.kvh <= isize::MAX
        &&& req.n() <= isize::MAX
        &&& req.page_count(self.tile_ctx as int) * self.tile_ctx <= isize::MAX
        &&& dense_rows::<T>(req.q.strides_spec(), req.n(), self.d as int)
        &&& dense_rows::<T>(req.k.strides_spec(), req.n(), self.d as int)
        &&& dense_rows::<T>(req.v.strides_spec(), req.n(), self.d as int)
        &&& dense_rows::<T>(req.o.strides_spec(), req.n(), self.d as int)
        &&& req.cache.strides@[0] == (2 * self.kvh) * ds
        &&& req.cache.strides@[1] == self.kvh * ds
        &&& req.cache.strides@[2] == ds
    }

    /// The output and the cache lie in ranges that they share with no other
    /// tensor.
    pub open spec fn own_ranges<T>(self, req: Attention) -> bool {
        let d = self.d as int;
        let heads = self.h * req.n() * d;
        let kv_heads = self.kvh * req.n() * d;
        let places = req.page_count(self.tile_ctx as int) * self.tile_ctx * (2 * self.kvh) * d;
        let q = elem::<T>(req.q.base as int);
        let k = elem::<T>(req.k.base as int);
        let v = elem::<T>(req.v.base as int);
        let o = elem::<T>(req.o.base as int);
        let cache = elem::<T>(req.cache.base + req.cache.offset);
        &&& ranges_apart(o, heads, q, heads)
        &&& ranges_apart(o, heads, k, kv_heads)
        &&& ranges_apart(o, heads, v, kv_heads)
        &&& ranges_apart(o, heads, cache, places)
        &&& ranges_apart(cache, places, q, heads)
        &&& ranges_apart(cache, places, k, kv_heads)
        &&& ranges_apart(cache, places, v, kv_heads)
    }

    /// Where a row of dense tensors lies.
    proof fn lemma_slot<T>(self, req: Attention, row: Row)
        requires
            req.ok(self.tile_ctx as int),
            self.dense::<T>(req),
            self.has_row(req, row),
        ensures
            self.row_pos::<T>(req, row) == self.tensor_start::<T>(req, row) + self.slot(req, row)
                * self.d,
            0 <= self.slot(req, row) < self.tensor_rows(req, row),
    {
        let n = req.n();
        let d = self.d as int;
        let h = self.h as int;
        let kvh = self.kvh as int;
        match row {
            Row::Query(head, i) => {
                lemma_dense_row::<T>(req.q.base, req.q.strides_spec(), h, n, d, head, i);
            },
            Row::Output(head, i) => {
                lemma_dense_row::<T>(req.o.base, req.o.strides_spec(), h, n, d, head, i);
            },
            Row::NewKey(head, i) => {
                lemma_dense_row::<T>(req.k.base, req.k.strides_spec(), kvh, n, d, head, i);
            },
            Row::NewVal(head, i) => {
                lemma_dense_row::<T>(req.v.base, req.v.strides_spec(), kvh, n, d, head, i);
            },
            Row::Key(head, p) => {
                self.lemma_cache_slot::<T>(req, head, p);
            },
            Row::Val(head, p) => {
                self.lemma_cache_slot::<T>(req, head, p);
            },
        }
    }

    proof fn lemma_cache_slot<T>(self, req: Attention, head: int, p: int)
        requires
            req.ok(self.tile_ctx as int),
            self.dense::<T>(req),
            self.has_row(req, Row::Key(head, p)),
        ensures
            self.row_pos::<T>(req, Row::Key(head, p)) == self.tensor_start::<T>(
                req,
                Row::Key(head, p),
            ) + self.slot(req, Row::Key(head, p)) * self.d,
            self.row_pos::<T>(req, Row::Val(head, p)) == self.tensor_start::<T>(
                req,
                Row::Val(head, p),
            ) + self.slot(req, Row::Val(head, p)) * self.d,
            0 <= self.slot(req, Row::Key(head, p)),
            self.slot(req, Row::Val(head, p)) < self.tensor_rows(req, Row::Val(head, p)),
    {
        let tile = self.tile_ctx as int;
        let count = req.page_count(tile);
        let places = count * tile;
        let size = vstd::layout::size_of::<T>() as int;
        let d = self.d as int;
        let ds = d * size;
        let w = 2 * self.kvh as int;
        let kvh = self.kvh as int;
        let j = p / tile;
        let i = p % tile;
        pages_hold_sequence(req, tile);
        vstd::arithmetic::div_mod::lemma_fundamental_div_mod(p, tile);
        assert(0 <= j < count && j * tile + i == p && 0 <= j * tile <= p) by (nonlinear_arith)
            requires
                tile > 0,
                p == tile * j + i,
                0 <= i < tile,
                0 <= p < count * tile,
        ;
        assert(req.cache.page_ok(j * tile));
        let b = req.cache.base + req.cache.offset;
        let st = w * ds;
        assert((j * tile) * st + i * st == p * st) by (nonlinear_arith)
            requires
                j * tile + i == p,
        ;
        assert(0 * (kvh * ds) == 0);
        assert(p * st + head * ds == (p * w + head) * d * size && p * st + kvh * ds + head * ds == (p
            * w + (kvh + head)) * d * size) by (nonlinear_arith)
            requires
                st == w * ds,
                ds == d * size,
        ;
        lemma_elem_moved::<T>(b, (p * w + head) * d);
        lemma_elem_moved::<T>(b, (p * w + (kvh + head)) * d);
        crate::attention::online::lemma_row_fits(p, places, w);
    }

    /// Different rows of one dense tensor have different numbers.
    proof fn lemma_slots_differ(self, req: Attention, x: Row, y: Row)
        requires
            x != y,
            self.has_row(req, x),
            self.has_row(req, y),
            (x is Output && y is Output) || ((x is Key || x is Val) && (y is Key || y is Val)),
        ensures
            self.slot(req, x) != self.slot(req, y),
    {
        let n = req.n();
        let kvh = self.kvh as int;
        if x is Output {
            let (a, i) = (x->Output_0, x->Output_1);
            let (b, j) = (y->Output_0, y->Output_1);
            vstd::arithmetic::div_mod::lemma_fundamental_div_mod_converse(a * n + i, n, a, i);
            vstd::arithmetic::div_mod::lemma_fundamental_div_mod_converse(b * n + j, n, b, j);
        } else {
            let (a, p) = match x {
                Row::Key(a, p) => (a, p),
                Row::Val(a, p) => (kvh + a, p),
                _ => (0, 0),
            };
            let (b, r) = match y {
                Row::Key(a, p) => (a, p),
                Row::Val(a, p) => (kvh + a, p),
                _ => (0, 0),
            };
            let w = 2 * kvh;
            vstd::arithmetic::div_mod::lemma_fundamental_div_mod_converse(p * w + a, w, p, a);
            vstd::arithmetic::div_mod::lemma_fundamental_div_mod_converse(r * w + b, w, r, b);
        }
    }

    /// Tensors that lie row after row, the output and the cache each in a range of
    /// its own, do not overlap.
    pub proof fn dense_is_apart<T>(self, req: Attention)
        requires
            req.ok(self.tile_ctx as int),
            self.dense::<T>(req),
            self.own_ranges::<T>(req),
        ensures
            self.tensors_apart::<T>(req),
    {
        let d = self.d as nat;
        assert forall|x: Row, y: Row|
            #![trigger self.row_pos::<T>(req, x), self.row_pos::<T>(req, y)]
            x.owned() && x != y && self.has_row(req, x) && self.has_row(req, y)
            implies disjoint(
            self.row_pos::<T>(req, x),
            self.row_pos::<T>(req, y),
            d,
        ) by {
            self.lemma_slot::<T>(req, x);
            self.lemma_slot::<T>(req, y);
            let a = self.tensor_start::<T>(req, x);
            let b = self.tensor_start::<T>(req, y);
            if (x is Output && y is Output) || (!(x is Output) && (y is Key || y is Val)) {
                self.lemma_slots_differ(req, x, y);
                lemma_slots_apart(a, self.slot(req, x), self.slot(req, y), d);
            } else {
                lemma_ranges_slots(
                    a,
                    self.tensor_rows(req, x),
                    self.slot(req, x),
                    b,
                    self.tensor_rows(req, y),
                    self.slot(req, y),
                    d,
                );
            }
        }
    }
}

} // verus!
