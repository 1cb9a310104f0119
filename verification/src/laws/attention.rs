//! What an attention block reads, writes and leaves alone.
use crate::attention::block::Block;
use crate::attention::driver::BatchView;
use crate::ceil::{ceil_div, lemma_ceil_div};
use crate::laws::order::{any_order, commuting};
use crate::memory::read;
use crate::scalar::Scalar;
use vstd::prelude::*;

verus! {

impl<T: Scalar> Block<T> {
    /// Position `p` lies in query row `iq`.
    pub open spec fn reads_query(self, iq: int, p: int) -> bool {
        0 <= iq < self.req.n && self.q_at(iq) <= p < self.q_at(iq) + self.d()
    }

    /// Position `p` lies in the key or the value of row `i` of page `j`.
    pub open spec fn reads_cache(self, j: int, i: int, p: int) -> bool {
        let k = self.k_at::<T>(self.kv_head(), j, i);
        let v = self.v_at::<T>(self.kv_head(), j, i);
        &&& 0 <= j < self.page_count()
        &&& 0 <= i < self.bs()
        &&& k <= p < k + self.d() || v <= p < v + self.d()
    }

    /// The block reads position `p`.
    pub open spec fn reads(self, p: int) -> bool {
        ||| exists|iq: int| #[trigger] self.reads_query(iq, p)
        ||| exists|j: int, i: int| #[trigger] self.reads_cache(j, i, p)
    }

    /// Position `p` lies in output row `iq`.
    pub open spec fn in_output(self, iq: int, p: int) -> bool {
        self.o_at(iq) <= p < self.o_at(iq) + self.d()
    }

    /// Position `p` lies in one of the output rows from `first` to `last`, the
    /// latter left out.
    pub open spec fn writes_rows(self, first: int, last: int, p: int) -> bool {
        exists|iq: int| first <= iq < last && #[trigger] self.in_output(iq, p)
    }

    /// The block writes position `p`.
    pub open spec fn writes(self, p: int) -> bool {
        self.writes_rows(0, self.req.n as int, p)
    }

    /// The memories `a` and `b` agree where the block reads.
    pub open spec fn same_input(self, a: Seq<T>, b: Seq<T>) -> bool {
        forall|p: int| self.reads(p) ==> a[p] == b[p]
    }

    /// A row of accumulated values has the length of a head.
    pub proof fn lemma_acc_len(self, mem: Seq<T>, masks: Seq<bool>, iq: int, j: nat)
        ensures
            self.state(mem, masks, iq, j).acc.len() == self.d(),
        decreases j,
    {
        if j > 0 {
            self.lemma_acc_len(mem, masks, iq, (j - 1) as nat);
        }
    }

    /// An output row depends on nothing but what the block reads.
    pub proof fn row_is_local(self, a: Seq<T>, b: Seq<T>, masks: Seq<bool>, iq: int)
        requires
            self.bs() > 0,
            self.same_input(a, b),
            0 <= iq < self.req.n,
        ensures
            self.row(a, masks, iq) == self.row(b, masks, iq),
    {
        lemma_ceil_div(self.req.s_ceil as int, self.bs());
        self.lemma_state_local(a, b, masks, iq, self.page_count() as nat);
    }

    proof fn lemma_state_local(self, a: Seq<T>, b: Seq<T>, masks: Seq<bool>, iq: int, j: nat)
        requires
            self.same_input(a, b),
            0 <= iq < self.req.n,
            j <= self.page_count(),
        ensures
            self.state(a, masks, iq, j) == self.state(b, masks, iq, j),
        decreases j,
    {
        if j > 0 {
            let c = j - 1;
            self.lemma_state_local(a, b, masks, iq, c as nat);
            assert(self.query(a, iq) =~= self.query(b, iq)) by {
                assert forall|t: int| 0 <= t < self.d() implies #[trigger] self.query(a, iq)[t]
                    == self.query(b, iq)[t] by {
                    assert(self.reads_query(iq, self.q_at(iq) + t));
                    assert(self.reads(self.q_at(iq) + t));
                }
            }
            assert forall|i: int| 0 <= i < self.bs() implies #[trigger] self.keys(a, c)[i]
                == self.keys(b, c)[i] by {
                let k = self.k_at::<T>(self.kv_head(), c, i);
                assert forall|t: int| 0 <= t < self.d() implies #[trigger] self.keys(a, c)[i][t]
                    == self.keys(b, c)[i][t] by {
                    assert(self.reads_cache(c, i, k + t));
                    assert(self.reads(k + t));
                }
                assert(self.keys(a, c)[i] =~= self.keys(b, c)[i]);
            }
            assert forall|i: int| 0 <= i < self.bs() implies #[trigger] self.vals(a, c)[i]
                == self.vals(b, c)[i] by {
                let v = self.v_at::<T>(self.kv_head(), c, i);
                assert forall|t: int| 0 <= t < self.d() implies #[trigger] self.vals(a, c)[i][t]
                    == self.vals(b, c)[i][t] by {
                    assert(self.reads_cache(c, i, v + t));
                    assert(self.reads(v + t));
                }
                assert(self.vals(a, c)[i] =~= self.vals(b, c)[i]);
            }
            assert(self.keys(a, c) =~= self.keys(b, c));
            assert(self.vals(a, c) =~= self.vals(b, c));
        }
    }

    /// Storing rows leaves other positions alone, and gives the same wherever
    /// the memories agree or a row is stored.
    proof fn lemma_stored(
        self,
        a: Seq<T>,
        b: Seq<T>,
        src_a: Seq<T>,
        src_b: Seq<T>,
        masks: Seq<bool>,
        first: int,
        count: nat,
        p: int,
    )
        requires
            self.bs() > 0,
            a.len() == b.len(),
            0 <= p < a.len(),
            0 <= first,
            first + count <= self.req.n,
            self.same_input(src_a, src_b),
        ensures
            !self.writes_rows(first, first + count, p) ==> self.stored(
                a,
                src_a,
                masks,
                first,
                count,
            )[p] == a[p],
            self.writes_rows(first, first + count, p) || a[p] == b[p] ==> self.stored(
                a,
                src_a,
                masks,
                first,
                count,
            )[p] == self.stored(b, src_b, masks, first, count)[p],
        decreases count,
    {
        if count > 0 {
            let c = (count - 1) as nat;
            let iq = first + count - 1;
            self.lemma_stored(a, b, src_a, src_b, masks, first, c, p);
            self.lemma_stored_len(a, src_a, masks, first, c);
            self.lemma_stored_len(b, src_b, masks, first, c);
            self.row_is_local(src_a, src_b, masks, iq);
            self.lemma_acc_len(src_a, masks, iq, self.page_count() as nat);
            if self.writes_rows(first, first + c, p) {
                let r = choose|r: int| first <= r < first + c && #[trigger] self.in_output(r, p);
                assert(self.in_output(r, p));
            }
            if self.in_output(iq, p) {
                assert(self.writes_rows(first, first + count, p));
            } else if self.writes_rows(first, first + count, p) {
                let r = choose|r: int| first <= r < first + count && #[trigger] self.in_output(r, p);
                assert(self.in_output(r, p));
                assert(self.writes_rows(first, first + c, p));
            }
        }
    }

    /// Rows of the first `tiles` tiles.
    pub open spec fn rows_done(self, bn: int, tiles: int) -> int {
        if tiles * bn < self.req.n {
            tiles * bn
        } else {
            self.req.n as int
        }
    }

    proof fn lemma_rows_done(self, bn: int, tiles: int)
        requires
            bn > 0,
            0 < tiles <= ceil_div(self.req.n as int, bn),
        ensures
            self.rows_done(bn, tiles - 1) == (tiles - 1) * bn,
            0 <= (tiles - 1) * bn < self.req.n,
            self.rows_done(bn, tiles) == (tiles - 1) * bn + self.tile_rows((tiles - 1) * bn, bn),
            self.tile_rows((tiles - 1) * bn, bn) > 0,
    {
        lemma_ceil_div(self.req.n as int, bn);
        let c = tiles - 1;
        assert(c * bn < self.req.n);
        assert(0 <= c * bn && tiles * bn == c * bn + bn) by (nonlinear_arith)
            requires
                c >= 0,
                bn > 0,
                tiles == c + 1,
        ;
    }

    /// The tiles leave other positions alone, and give the same wherever the
    /// memories agree or a row is stored.
    proof fn lemma_tiled(self, a: Seq<T>, b: Seq<T>, masks: Seq<bool>, bn: int, tiles: nat)
        requires
            self.bs() > 0,
            a.len() == b.len(),
            bn > 0,
            tiles <= ceil_div(self.req.n as int, bn),
            self.same_input(a, b),
            forall|p: int| self.reads(p) ==> 0 <= p < a.len(),
        ensures
            forall|p: int|
                #![trigger self.tiled(a, masks, bn, tiles)[p]]
                0 <= p < a.len() ==> {
                    &&& !self.writes_rows(0, self.rows_done(bn, tiles as int), p) ==> self.tiled(
                        a,
                        masks,
                        bn,
                        tiles,
                    )[p] == a[p]
                    &&& self.writes_rows(0, self.rows_done(bn, tiles as int), p) || a[p] == b[p]
                        ==> self.tiled(a, masks, bn, tiles)[p] == self.tiled(b, masks, bn, tiles)[p]
                },
        decreases tiles,
    {
        if tiles == 0 {
            assert(self.rows_done(bn, 0) == 0);
        } else {
            let c = (tiles - 1) as nat;
            let first = c * bn;
            let count = self.tile_rows(first, bn) as nat;
            let ta = self.tiled(a, masks, bn, c);
            let tb = self.tiled(b, masks, bn, c);
            self.lemma_rows_done(bn, tiles as int);
            self.lemma_tiled(a, b, masks, bn, c);
            self.lemma_tiled_len(a, masks, bn, c);
            self.lemma_tiled_len(b, masks, bn, c);
            assert(self.same_input(ta, tb));
            assert forall|p: int|
                #![trigger self.tiled(a, masks, bn, tiles)[p]]
                0 <= p < a.len() implies {
                &&& !self.writes_rows(0, self.rows_done(bn, tiles as int), p) ==> self.tiled(
                    a,
                    masks,
                    bn,
                    tiles,
                )[p] == a[p]
                &&& self.writes_rows(0, self.rows_done(bn, tiles as int), p) || a[p] == b[p]
                    ==> self.tiled(a, masks, bn, tiles)[p] == self.tiled(b, masks, bn, tiles)[p]
            } by {
                self.lemma_stored(ta, tb, ta, tb, masks, first, count, p);
                assert(ta[p] == self.tiled(a, masks, bn, c)[p]);
                self.lemma_split_rows(0, first, first + count, p);
            }
        }
    }

    /// The rows from `a` to `c` are those up to `b` and those from `b` on.
    proof fn lemma_split_rows(self, a: int, b: int, c: int, p: int)
        requires
            a <= b <= c,
        ensures
            self.writes_rows(a, c, p) <==> self.writes_rows(a, b, p) || self.writes_rows(b, c, p),
    {
        if self.writes_rows(a, c, p) {
            let r = choose|r: int| a <= r < c && #[trigger] self.in_output(r, p);
            assert(self.in_output(r, p));
        }
        if self.writes_rows(a, b, p) {
            let r = choose|r: int| a <= r < b && #[trigger] self.in_output(r, p);
            assert(self.in_output(r, p));
        }
        if self.writes_rows(b, c, p) {
            let r = choose|r: int| b <= r < c && #[trigger] self.in_output(r, p);
            assert(self.in_output(r, p));
        }
    }

    /// What a block needs lies within the memory that it was found to lie in.
    pub proof fn lemma_reads_within(self, len: nat, masks_len: nat)
        requires
            self.attn_ok(len, masks_len),
            self.req.n > 0,
        ensures
            forall|p: int| self.reads(p) ==> 0 <= p < len,
    {
        let size = vstd::layout::size_of::<T>() as int;
        assert forall|p: int| self.reads(p) implies 0 <= p < len by {
            if exists|iq: int| #[trigger] self.reads_query(iq, p) {
                let iq = choose|iq: int| #[trigger] self.reads_query(iq, p);
                assert(self.query_ok(len, masks_len, iq));
                vstd::arithmetic::div_mod::lemma_div_pos_is_pos(
                    self.req.q + self.req.q_strides.at(self.head, iq),
                    size,
                );
            } else {
                let (j, i) = choose|j: int, i: int| #[trigger] self.reads_cache(j, i, p);
                assert(self.cache_row_ok::<T>(len, self.kv_head(), j, i));
                let off = self.req.kv_strides.at(self.kv_head(), i);
                vstd::arithmetic::div_mod::lemma_div_pos_is_pos(self.page(j).k + off, size);
                vstd::arithmetic::div_mod::lemma_div_pos_is_pos(self.page(j).v + off, size);
            }
        }
    }

    /// The block changes nothing but its output rows.
    pub proof fn attention_leaves_rest(
        self,
        mem: Seq<T>,
        masks: Seq<bool>,
        bn: int,
        p: int,
    )
        requires
            self.attn_ok(mem.len(), masks.len()),
            bn > 0,
            0 <= p < mem.len(),
            !self.writes(p),
        ensures
            self.attended(mem, masks, bn)[p] == mem[p],
    {
        self.lemma_attended(mem, mem, masks, bn, p);
    }

    /// The block's effect on position `p`, for two memories that agree on what
    /// the block reads.
    proof fn lemma_attended(self, a: Seq<T>, b: Seq<T>, masks: Seq<bool>, bn: int, p: int)
        requires
            self.attn_ok(a.len(), masks.len()),
            a.len() == b.len(),
            bn > 0,
            0 <= p < a.len(),
            self.req.n > 0 ==> self.same_input(a, b),
        ensures
            !self.writes(p) ==> self.attended(a, masks, bn)[p] == a[p],
            self.writes(p) || a[p] == b[p] ==> self.attended(a, masks, bn)[p] == self.attended(
                b,
                masks,
                bn,
            )[p],
    {
        let tiles = ceil_div(self.req.n as int, bn);
        lemma_ceil_div(self.req.n as int, bn);
        if self.req.n > 0 {
            self.lemma_reads_within(a.len(), masks.len());
            self.lemma_tiled(a, b, masks, bn, tiles as nat);
            assert(self.rows_done(bn, tiles) == self.req.n);
            assert(self.attended(a, masks, bn)[p] == self.tiled(a, masks, bn, tiles as nat)[p]);
        }
    }

    /// The rows are stored one after the other, tile or no tile.
    proof fn lemma_stored_joins(
        self,
        mem: Seq<T>,
        src: Seq<T>,
        masks: Seq<bool>,
        a: nat,
        b: nat,
    )
        ensures
            self.stored(self.stored(mem, src, masks, 0, a), src, masks, a as int, b)
                == self.stored(mem, src, masks, 0, a + b),
        decreases b,
    {
        if b > 0 {
            self.lemma_stored_joins(mem, src, masks, a, (b - 1) as nat);
        }
    }

    /// Rows computed from the same input are stored the same.
    proof fn lemma_stored_same(
        self,
        mem: Seq<T>,
        src_a: Seq<T>,
        src_b: Seq<T>,
        masks: Seq<bool>,
        first: int,
        count: nat,
    )
        requires
            self.bs() > 0,
            0 <= first,
            first + count <= self.req.n,
            self.same_input(src_a, src_b),
        ensures
            self.stored(mem, src_a, masks, first, count) == self.stored(
                mem,
                src_b,
                masks,
                first,
                count,
            ),
        decreases count,
    {
        if count > 0 {
            self.lemma_stored_same(mem, src_a, src_b, masks, first, (count - 1) as nat);
            self.row_is_local(src_a, src_b, masks, first + count - 1);
        }
    }

    proof fn lemma_tiled_plain(self, mem: Seq<T>, masks: Seq<bool>, bn: int, tiles: nat)
        requires
            self.bs() > 0,
            bn > 0,
            tiles <= ceil_div(self.req.n as int, bn),
            forall|p: int| self.reads(p) ==> 0 <= p < mem.len() && !self.writes(p),
        ensures
            self.tiled(mem, masks, bn, tiles) == self.stored(
                mem,
                mem,
                masks,
                0,
                self.rows_done(bn, tiles as int) as nat,
            ),
        decreases tiles,
    {
        if tiles == 0 {
            assert(self.rows_done(bn, 0) == 0);
        } else {
            let c = (tiles - 1) as nat;
            let first = c * bn;
            let count = self.tile_rows(first, bn) as nat;
            let t = self.tiled(mem, masks, bn, c);
            self.lemma_rows_done(bn, tiles as int);
            self.lemma_tiled_plain(mem, masks, bn, c);
            assert forall|p: int| self.reads(p) implies t[p] == mem[p] by {
                self.lemma_stored(mem, mem, mem, mem, masks, 0, first as nat, p);
                self.lemma_split_rows(0, first, self.req.n as int, p);
            }
            self.lemma_stored_same(t, t, mem, masks, first, count);
            self.lemma_stored_joins(mem, mem, masks, first as nat, count);
        }
    }

    /// A block that writes nothing it reads stores the output rows computed from
    /// the memory as it was, one after the other.
    pub proof fn attention_stores_rows(self, mem: Seq<T>, masks: Seq<bool>, bn: int)
        requires
            self.attn_ok(mem.len(), masks.len()),
            bn > 0,
            forall|p: int| self.reads(p) ==> !self.writes(p),
        ensures
            self.attended(mem, masks, bn) == self.stored(
                mem,
                mem,
                masks,
                0,
                self.req.n as nat,
            ),
    {
        let tiles = ceil_div(self.req.n as int, bn);
        lemma_ceil_div(self.req.n as int, bn);
        if self.req.n > 0 {
            self.lemma_reads_within(mem.len(), masks.len());
            self.lemma_tiled_plain(mem, masks, bn, tiles as nat);
            assert(self.rows_done(bn, tiles) == self.req.n);
        }
    }

    /// The size of the query tiles does not matter to a block that writes
    /// nothing it reads.
    pub proof fn tile_size_does_not_matter(
        self,
        mem: Seq<T>,
        masks: Seq<bool>,
        bn: int,
        other: int,
    )
        requires
            self.attn_ok(mem.len(), masks.len()),
            bn > 0,
            other > 0,
            forall|p: int| self.reads(p) ==> !self.writes(p),
        ensures
            self.attended(mem, masks, bn) == self.attended(mem, masks, other),
    {
        self.attention_stores_rows(mem, masks, bn);
        self.attention_stores_rows(mem, masks, other);
    }

    /// A block that writes nothing it reads, and no two output rows over each
    /// other, leaves in each output row the attention of that row.
    pub proof fn output_rows_are_attention(
        self,
        mem: Seq<T>,
        masks: Seq<bool>,
        bn: int,
        iq: int,
    )
        requires
            self.attn_ok(mem.len(), masks.len()),
            bn > 0,
            forall|p: int| self.reads(p) ==> !self.writes(p),
            0 <= iq < self.req.n,
            forall|r: int|
                iq < r < self.req.n ==> crate::laws::concat::disjoint(
                    self.o_at(iq),
                    #[trigger] self.o_at(r),
                    self.d(),
                ),
        ensures
            read(self.attended(mem, masks, bn), self.o_at(iq), self.d()) == self.row(
                mem,
                masks,
                iq,
            ),
    {
        self.attention_stores_rows(mem, masks, bn);
        let size = vstd::layout::size_of::<T>() as int;
        assert(self.query_ok(mem.len(), masks.len(), iq));
        vstd::arithmetic::div_mod::lemma_div_pos_is_pos(
            self.req.o + self.req.o_strides.at(self.head, iq),
            size,
        );
        self.lemma_row_stays(mem, masks, iq, self.req.n as nat);
        self.lemma_acc_len(mem, masks, iq, self.page_count() as nat);
        assert(read(self.attended(mem, masks, bn), self.o_at(iq), self.d()) =~= self.row(
            mem,
            masks,
            iq,
        ));
    }

    proof fn lemma_row_stays(self, mem: Seq<T>, masks: Seq<bool>, iq: int, count: nat)
        requires
            0 <= iq < count <= self.req.n,
            0 <= self.o_at(iq),
            self.o_at(iq) + self.d() <= mem.len(),
            forall|r: int|
                iq < r < self.req.n ==> crate::laws::concat::disjoint(
                    self.o_at(iq),
                    #[trigger] self.o_at(r),
                    self.d(),
                ),
        ensures
            forall|t: int|
                0 <= t < self.d() ==> #[trigger] self.stored(mem, mem, masks, 0, count)[self.o_at(iq)
                    + t] == self.row(mem, masks, iq)[t],
        decreases count,
    {
        let c = (count - 1) as nat;
        let before = self.stored(mem, mem, masks, 0, c);
        self.lemma_stored_len(mem, mem, masks, 0, c);
        self.lemma_acc_len(mem, masks, count - 1, self.page_count() as nat);
        if iq < c {
            self.lemma_row_stays(mem, masks, iq, c);
            assert(crate::laws::concat::disjoint(self.o_at(iq), self.o_at(count - 1), self.d()));
            assert forall|t: int| 0 <= t < self.d() implies #[trigger] self.stored(
                mem,
                mem,
                masks,
                0,
                count,
            )[self.o_at(iq) + t] == self.row(mem, masks, iq)[t] by {
                assert(before[self.o_at(iq) + t] == self.row(mem, masks, iq)[t]);
            }
        }
    }
}

/// Neither of two blocks writes what the other reads or writes.
pub open spec fn attention_independent<T: Scalar>(a: Block<T>, b: Block<T>) -> bool {
    forall|p: int|
        #![trigger a.writes(p)]
        #![trigger b.writes(p)]
        !(a.writes(p) && (b.writes(p) || b.reads(p))) && !(b.writes(p) && a.reads(p))
}

/// Independent attention blocks commute.
pub proof fn independent_blocks_commute<T: Scalar>(
    mem: Seq<T>,
    masks: Seq<bool>,
    bn: int,
    a: Block<T>,
    b: Block<T>,
)
    requires
        a.attn_ok(mem.len(), masks.len()),
        b.attn_ok(mem.len(), masks.len()),
        bn > 0,
        attention_independent(a, b),
    ensures
        b.attended(a.attended(mem, masks, bn), masks, bn) == a.attended(
            b.attended(mem, masks, bn),
            masks,
            bn,
        ),
{
    let ma = a.attended(mem, masks, bn);
    let mb = b.attended(mem, masks, bn);
    a.lemma_attended_len(mem, masks, bn);
    b.lemma_attended_len(mem, masks, bn);
    a.lemma_attended_len(mb, masks, bn);
    b.lemma_attended_len(ma, masks, bn);
    if b.req.n > 0 {
        b.lemma_reads_within(mem.len(), masks.len());
        assert forall|p: int| b.reads(p) implies mem[p] == ma[p] by {
            assert(!a.writes(p));
            a.attention_leaves_rest(mem, masks, bn, p);
        }
    }
    if a.req.n > 0 {
        a.lemma_reads_within(mem.len(), masks.len());
        assert forall|p: int| a.reads(p) implies mem[p] == mb[p] by {
            assert(!b.writes(p));
            b.attention_leaves_rest(mem, masks, bn, p);
        }
    }
    assert forall|p: int| 0 <= p < mem.len() implies b.attended(ma, masks, bn)[p] == a.attended(
        mb,
        masks,
        bn,
    )[p] by {
        a.lemma_attended(mem, mb, masks, bn, p);
        b.lemma_attended(mem, ma, masks, bn, p);
        if a.writes(p) {
            assert(!b.writes(p));
            b.attention_leaves_rest(ma, masks, bn, p);
        } else if b.writes(p) {
            a.attention_leaves_rest(mb, masks, bn, p);
        } else {
            b.attention_leaves_rest(ma, masks, bn, p);
            a.attention_leaves_rest(mb, masks, bn, p);
        }
    }
    assert(b.attended(ma, masks, bn) =~= a.attended(mb, masks, bn));
}

impl<T: Scalar> BatchView<T> {
    /// What the blocks `ids` need lies in a memory of `len` elements.
    pub open spec fn attention_ok(self, len: nat, ids: Seq<(usize, usize)>) -> bool {
        forall|x: (usize, usize)|
            ids.contains(x) ==> (#[trigger] self.block(x)).attn_ok(len, self.masks.len())
    }

    /// No block of `ids` writes what another reads or writes.
    pub open spec fn attention_apart(self, ids: Seq<(usize, usize)>) -> bool {
        forall|x: (usize, usize), y: (usize, usize)|
            ids.contains(x) && ids.contains(y) && x != y ==> attention_independent(
                #[trigger] self.block(x),
                #[trigger] self.block(y),
            )
    }

    /// Blocks that are apart commute.
    pub proof fn lemma_attention_commutes(self, len: nat, bn: int, ids: Seq<(usize, usize)>)
        requires
            bn > 0,
            self.attention_ok(len, ids),
            self.attention_apart(ids),
        ensures
            commuting(self.attention_step(bn), |m: Seq<T>| m.len() == len, ids),
    {
        let f = self.attention_step(bn);
        let inv = |m: Seq<T>| m.len() == len;
        assert forall|m: Seq<T>, x: (usize, usize)| inv(m) && ids.contains(x) implies inv(
            #[trigger] f(m, x),
        ) by {
            self.block(x).lemma_attended_len(m, self.masks, bn);
        }
        assert forall|m: Seq<T>, x: (usize, usize), y: (usize, usize)|
            inv(m) && ids.contains(x) && ids.contains(y) && x != y implies #[trigger] f(f(m, x), y)
            == f(f(m, y), x) by {
            independent_blocks_commute(m, self.masks, bn, self.block(x), self.block(y));
        }
    }

    /// The attention blocks can run in any order, where no block writes what
    /// another reads or writes.
    pub proof fn attention_in_any_order(
        self,
        mem: Seq<T>,
        bn: int,
        ids: Seq<(usize, usize)>,
        order: Seq<(usize, usize)>,
    )
        requires
            bn > 0,
            self.attention_ok(mem.len(), ids),
            self.attention_apart(ids),
            ids.to_multiset() == order.to_multiset(),
        ensures
            self.attended(mem, bn, ids) == self.attended(mem, bn, order),
    {
        self.lemma_attention_commutes(mem.len(), bn, ids);
        any_order(self.attention_step(bn), |m: Seq<T>| m.len() == mem.len(), mem, ids, order);
    }
}

} // verus!
