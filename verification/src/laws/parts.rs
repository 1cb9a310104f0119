//! A request computed in two parts.
use crate::attention::batch::{Attention, TensorView};
use crate::attention::block::row_ok;
use crate::attention::FlashAttnCfg;
use crate::laws::batch::{heads_share_evenly, pages_hold_sequence};
use crate::laws::concat::{disjoint, lemma_row_moved};
use crate::laws::exact::{all_fin, exact};
use crate::laws::request::Row;
use crate::memory::read;
use crate::scalar::Scalar;
use vstd::prelude::*;

verus! {

impl TensorView {
    /// The tensor of shape `[heads, rows, d]` holds the rows of `whole` from row
    /// `from` on.
    pub open spec fn rows_from(self, whole: TensorView, from: int) -> bool {
        &&& self.base == whole.base + whole.strides_spec().at(0, from)
        &&& self.strides@ == whole.strides@
    }
}

impl Attention {
    /// The request has the rows of `whole` from row `from` on, as many as it has,
    /// and comes after the rows before them.
    pub open spec fn part_of(self, whole: Attention, from: int) -> bool {
        &&& 0 <= from
        &&& from + self.n() <= whole.n()
        &&& self.q.rows_from(whole.q, from)
        &&& self.k.rows_from(whole.k, from)
        &&& self.v.rows_from(whole.v, from)
        &&& self.o.rows_from(whole.o, from)
        &&& self.cache.base == whole.cache.base
        &&& self.cache.offset == whole.cache.offset
        &&& self.cache.strides@ == whole.cache.strides@
        &&& self.pos == whole.pos + from
    }
}

impl Row {
    /// The row of the whole that a row of the part from row `from` on is.
    pub open spec fn in_whole(self, from: int) -> Row {
        match self {
            Row::Query(head, i) => Row::Query(head, from + i),
            Row::NewKey(head, i) => Row::NewKey(head, from + i),
            Row::NewVal(head, i) => Row::NewVal(head, from + i),
            Row::Output(head, i) => Row::Output(head, from + i),
            Row::Key(head, p) => Row::Key(head, p),
            Row::Val(head, p) => Row::Val(head, p),
        }
    }
}

impl FlashAttnCfg {
    /// The rows of the part lie where those of the whole do.
    pub open spec fn rows_match<T>(self, whole: Attention, part: Attention, from: int) -> bool {
        forall|row: Row|
            self.has_row(part, row) ==> #[trigger] self.row_pos::<T>(part, row)
                == self.row_pos::<T>(whole, row.in_whole(from))
    }

    /// The rows of a part lie where those of the whole do, if both can be computed.
    pub(crate) proof fn lemma_rows_match<T: Scalar>(
        self,
        scale: T,
        whole: Attention,
        part: Attention,
        from: int,
        len: nat,
    )
        requires
            len <= usize::MAX,
            part.part_of(whole, from),
            self.computable(scale, seq![whole], len),
            self.computable(scale, seq![part], len),
        ensures
            self.rows_match::<T>(whole, part, from),
    {
        let d = self.d as nat;
        assert(seq![whole][0].ok(self.tile_ctx as int));
        assert(seq![part][0].ok(self.tile_ctx as int));
        assert forall|row: Row| self.has_row(part, row) implies #[trigger] self.row_pos::<T>(
            part,
            row,
        ) == self.row_pos::<T>(whole, row.in_whole(from)) by {
            if row is Query {
                let (head, i) = (row->Query_0, row->Query_1);
                self.lemma_tensor_row(scale, part, len, row);
                assert forall|r: int| 0 <= r < whole.n() implies #[trigger] row_ok::<T>(
                    len,
                    whole.q.base,
                    whole.q.strides_spec(),
                    head,
                    r,
                    d,
                ) by {
                    self.lemma_tensor_row(scale, whole, len, Row::Query(head, r));
                }
                lemma_row_moved::<T>(
                    len,
                    whole.q.base,
                    part.q.base,
                    whole.q.strides_spec(),
                    head,
                    from,
                    i,
                    whole.n(),
                    d,
                );
            }
            if row is NewKey {
                let (head, i) = (row->NewKey_0, row->NewKey_1);
                self.lemma_tensor_row(scale, part, len, row);
                assert forall|r: int| 0 <= r < whole.n() implies #[trigger] row_ok::<T>(
                    len,
                    whole.k.base,
                    whole.k.strides_spec(),
                    head,
                    r,
                    d,
                ) by {
                    self.lemma_tensor_row(scale, whole, len, Row::NewKey(head, r));
                }
                lemma_row_moved::<T>(
                    len,
                    whole.k.base,
                    part.k.base,
                    whole.k.strides_spec(),
                    head,
                    from,
                    i,
                    whole.n(),
                    d,
                );
            }
            if row is NewVal {
                let (head, i) = (row->NewVal_0, row->NewVal_1);
                self.lemma_tensor_row(scale, part, len, row);
                assert forall|r: int| 0 <= r < whole.n() implies #[trigger] row_ok::<T>(
                    len,
                    whole.v.base,
                    whole.v.strides_spec(),
                    head,
                    r,
                    d,
                ) by {
                    self.lemma_tensor_row(scale, whole, len, Row::NewVal(head, r));
                }
                lemma_row_moved::<T>(
                    len,
                    whole.v.base,
                    part.v.base,
                    whole.v.strides_spec(),
                    head,
                    from,
                    i,
                    whole.n(),
                    d,
                );
            }
            if row is Output {
                let (head, i) = (row->Output_0, row->Output_1);
                self.lemma_tensor_row(scale, part, len, row);
                assert forall|r: int| 0 <= r < whole.n() implies #[trigger] row_ok::<T>(
                    len,
                    whole.o.base,
                    whole.o.strides_spec(),
                    head,
                    r,
                    d,
                ) by {
                    self.lemma_tensor_row(scale, whole, len, Row::Output(head, r));
                }
                lemma_row_moved::<T>(
                    len,
                    whole.o.base,
                    part.o.base,
                    whole.o.strides_spec(),
                    head,
                    from,
                    i,
                    whole.n(),
                    d,
                );
            }
        }
    }

    /// The rows of a part are rows of the whole.
    pub(crate) proof fn lemma_part_row<T>(
        self,
        whole: Attention,
        part: Attention,
        from: int,
        row: Row,
    )
        requires
            part.part_of(whole, from),
            whole.ok(self.tile_ctx as int),
            part.ok(self.tile_ctx as int),
            self.rows_match::<T>(whole, part, from),
            self.has_row(part, row),
        ensures
            self.has_row(whole, row.in_whole(from)),
            self.row_pos::<T>(part, row) == self.row_pos::<T>(whole, row.in_whole(from)),
    {
        let tile = self.tile_ctx as int;
        let a = part.page_count(tile);
        let b = whole.page_count(tile);
        pages_hold_sequence(part, tile);
        pages_hold_sequence(whole, tile);
        assert(a * tile <= b * tile) by (nonlinear_arith)
            requires
                tile > 0,
                a * tile < part.s() + tile,
                part.s() <= whole.s(),
                whole.s() <= b * tile,
        ;
    }

    /// The tensors of a part do not overlap if those of the whole do not.
    pub(crate) proof fn lemma_part_apart<T>(self, whole: Attention, part: Attention, from: int)
        requires
            part.part_of(whole, from),
            whole.ok(self.tile_ctx as int),
            part.ok(self.tile_ctx as int),
            self.rows_match::<T>(whole, part, from),
            self.tensors_apart::<T>(whole),
        ensures
            self.tensors_apart::<T>(part),
    {
        assert forall|x: Row, y: Row|
            #![trigger self.row_pos::<T>(part, x), self.row_pos::<T>(part, y)]
            x.owned() && x != y && self.has_row(part, x) && self.has_row(part, y)
            implies disjoint(
            self.row_pos::<T>(part, x),
            self.row_pos::<T>(part, y),
            self.d as nat,
        ) by {
            self.lemma_part_row::<T>(whole, part, from, x);
            self.lemma_part_row::<T>(whole, part, from, y);
            assert(x.in_whole(from) != y.in_whole(from));
        }
    }

    /// Computing a part leaves alone the rows of the whole that it does not write.
    pub(crate) proof fn lemma_part_leaves<T: Scalar>(
        self,
        scale: T,
        whole: Attention,
        part: Attention,
        from: int,
        mem: Seq<T>,
        row: Row,
    )
        requires
            part.part_of(whole, from),
            self.rows_match::<T>(whole, part, from),
            self.tensors_apart::<T>(whole),
            whole.ok(self.tile_ctx as int),
            self.computable(scale, seq![part], mem.len()),
            self.has_row(whole, row),
            0 <= self.row_pos::<T>(whole, row),
            self.row_pos::<T>(whole, row) + self.d <= mem.len(),
            match row {
                Row::Output(head, i) => i < from || from + part.n() <= i,
                Row::Key(head, p) => p < part.pos || part.s() <= p,
                Row::Val(head, p) => p < part.pos || part.s() <= p,
                _ => true,
            },
        ensures
            self.row_of(whole, row, self.computed(scale, seq![part], mem)) == self.row_of(
                whole,
                row,
                mem,
            ),
    {
        let d = self.d as nat;
        let at = self.row_pos::<T>(whole, row);
        let after = self.computed(scale, seq![part], mem);
        assert(seq![part][0].ok(self.tile_ctx as int));
        assert forall|e: int| 0 <= e < d implies #[trigger] read(after, at, d)[e] == read(
            mem,
            at,
            d,
        )[e] by {
            let t = at + e;
            assert(self.in_row::<T>(whole, row, t));
            if self.touched::<T>(part, t) {
                let r = choose|r: Row| #[trigger]
                    self.in_row::<T>(part, r, t) && self.row_written(part, r);
                self.lemma_part_row::<T>(whole, part, from, r);
                assert(self.in_row::<T>(whole, r.in_whole(from), t));
                self.lemma_one_row::<T>(whole, r.in_whole(from), row, t);
            }
            self.request_leaves_rest(scale, part, mem, t);
        }
        assert(read(after, at, d) =~= read(mem, at, d));
    }

    /// After the first part, the second finds every place of the sequence as the
    /// whole would leave it, and its own new rows as they were.
    pub(crate) proof fn lemma_second_finds<T: Scalar>(
        self,
        scale: T,
        whole: Attention,
        first: Attention,
        second: Attention,
        mem: Seq<T>,
        head: int,
        p: int,
    )
        requires
            first.part_of(whole, 0),
            second.part_of(whole, first.n()),
            first.n() + second.n() == whole.n(),
            self.rows_match::<T>(whole, first, 0),
            self.rows_match::<T>(whole, second, first.n()),
            self.computable(scale, seq![whole], mem.len()),
            self.computable(scale, seq![first], mem.len()),
            self.computable(scale, seq![second], mem.len()),
            self.tensors_apart::<T>(whole),
            self.has_row(whole, Row::Key(head, p)),
            whole.pos <= p < whole.s() || (self.h > 0 && whole.n() > 0),
        ensures
            self.key_after(second, self.computed(scale, seq![first], mem), head, p)
                == self.key_after(whole, mem, head, p),
            self.val_after(second, self.computed(scale, seq![first], mem), head, p)
                == self.val_after(whole, mem, head, p),
    {
        let tile = self.tile_ctx as int;
        let n1 = first.n();
        let len = mem.len();
        assert(seq![whole][0].ok(tile));
        assert(seq![first][0].ok(tile));
        assert(seq![second][0].ok(tile));
        assert(second.s() == whole.s());
        if second.pos <= p < second.s() {
            let i = p - second.pos;
            self.lemma_part_row::<T>(whole, second, n1, Row::NewKey(head, i));
            self.lemma_part_row::<T>(whole, second, n1, Row::NewVal(head, i));
            self.lemma_row_inside(scale, whole, len, Row::NewKey(head, n1 + i));
            self.lemma_row_inside(scale, whole, len, Row::NewVal(head, n1 + i));
            self.lemma_part_leaves(scale, whole, first, 0, mem, Row::NewKey(head, n1 + i));
            self.lemma_part_leaves(scale, whole, first, 0, mem, Row::NewVal(head, n1 + i));
        } else {
            self.lemma_part_row::<T>(whole, second, n1, Row::Key(head, p));
            self.lemma_part_row::<T>(whole, second, n1, Row::Val(head, p));
            if first.pos <= p < first.s() {
                pages_hold_sequence(first, tile);
                self.lemma_part_apart::<T>(whole, first, 0);
                self.lemma_part_row::<T>(whole, first, 0, Row::Key(head, p));
                self.lemma_part_row::<T>(whole, first, 0, Row::Val(head, p));
                self.lemma_part_row::<T>(whole, first, 0, Row::NewKey(head, p - first.pos));
                self.lemma_part_row::<T>(whole, first, 0, Row::NewVal(head, p - first.pos));
                self.request_takes_its_rows(scale, first, mem, head, p);
            } else {
                self.lemma_row_inside(scale, whole, len, Row::Key(head, p));
                self.lemma_row_inside(scale, whole, len, Row::Val(head, p));
                self.lemma_part_leaves(scale, whole, first, 0, mem, Row::Key(head, p));
                self.lemma_part_leaves(scale, whole, first, 0, mem, Row::Val(head, p));
            }
        }
    }

    /// The first part finds what the whole finds, up to its own end.
    pub(crate) proof fn lemma_first_finds<T>(
        self,
        whole: Attention,
        first: Attention,
        mem: Seq<T>,
        head: int,
        p: int,
    )
        requires
            first.part_of(whole, 0),
            self.rows_match::<T>(whole, first, 0),
            whole.ok(self.tile_ctx as int),
            first.ok(self.tile_ctx as int),
            0 <= head < self.kvh,
            0 <= p < first.s(),
        ensures
            self.key_after(first, mem, head, p) == self.key_after(whole, mem, head, p),
            self.val_after(first, mem, head, p) == self.val_after(whole, mem, head, p),
    {
        pages_hold_sequence(first, self.tile_ctx as int);
        if p < first.pos {
            self.lemma_part_row::<T>(whole, first, 0, Row::Key(head, p));
            self.lemma_part_row::<T>(whole, first, 0, Row::Val(head, p));
        } else {
            self.lemma_part_row::<T>(whole, first, 0, Row::NewKey(head, p - first.pos));
            self.lemma_part_row::<T>(whole, first, 0, Row::NewVal(head, p - first.pos));
        }
    }

    /// The output rows of the first part are those of the whole.
    proof fn lemma_first_output<T: Scalar>(
        self,
        fin: spec_fn(T) -> bool,
        scale: T,
        whole: Attention,
        first: Attention,
        mem: Seq<T>,
        head: int,
        iq: int,
    )
        requires
            exact(fin),
            fin(scale),
            first.part_of(whole, 0),
            self.rows_match::<T>(whole, first, 0),
            self.computable(scale, seq![whole], mem.len()),
            self.computable(scale, seq![first], mem.len()),
            self.tensors_apart::<T>(whole),
            self.finite(fin, whole, mem),
            self.finite(fin, first, mem),
            0 <= head < self.h,
            0 <= iq < first.n(),
        ensures
            self.row_of(whole, Row::Output(head, iq), self.computed(scale, seq![first], mem))
                == self.row_of(
                whole,
                Row::Output(head, iq),
                self.computed(scale, seq![whole], mem),
            ),
    {
        let tile = self.tile_ctx as int;
        let kv = self.kv_of(head);
        let seen = (whole.pos + iq + 1) as nat;
        assert(seq![whole][0].ok(tile));
        assert(seq![first][0].ok(tile));
        heads_share_evenly(self.h as int, self.kvh as int, head);
        pages_hold_sequence(first, tile);
        self.lemma_part_apart::<T>(whole, first, 0);
        self.lemma_part_row::<T>(whole, first, 0, Row::Output(head, iq));
        self.lemma_part_row::<T>(whole, first, 0, Row::Query(head, iq));
        assert forall|p: int| 0 <= p < seen implies #[trigger] self.key_after(first, mem, kv, p)
            == self.key_after(whole, mem, kv, p) by {
            self.lemma_first_finds(whole, first, mem, kv, p);
        }
        assert forall|p: int| 0 <= p < seen implies #[trigger] self.val_after(first, mem, kv, p)
            == self.val_after(whole, mem, kv, p) by {
            self.lemma_first_finds(whole, first, mem, kv, p);
        }
        self.request_is_causal_attention(fin, scale, whole, mem, head, iq);
        self.request_is_causal_attention(fin, scale, first, mem, head, iq);
        assert(Seq::new(seen, |p: int| self.key_after(first, mem, kv, p)) =~= Seq::new(
            seen,
            |p: int| self.key_after(whole, mem, kv, p),
        ));
        assert(Seq::new(seen, |p: int| self.val_after(first, mem, kv, p)) =~= Seq::new(
            seen,
            |p: int| self.val_after(whole, mem, kv, p),
        ));
    }

    /// The output rows of the second part are those of the whole.
    proof fn lemma_second_output<T: Scalar>(
        self,
        fin: spec_fn(T) -> bool,
        scale: T,
        whole: Attention,
        first: Attention,
        second: Attention,
        mem: Seq<T>,
        head: int,
        i: int,
    )
        requires
            exact(fin),
            fin(scale),
            first.part_of(whole, 0),
            second.part_of(whole, first.n()),
            first.n() + second.n() == whole.n(),
            self.rows_match::<T>(whole, first, 0),
            self.rows_match::<T>(whole, second, first.n()),
            self.computable(scale, seq![whole], mem.len()),
            self.computable(scale, seq![first], mem.len()),
            self.computable(scale, seq![second], mem.len()),
            self.tensors_apart::<T>(whole),
            self.finite(fin, whole, mem),
            0 <= head < self.h,
            0 <= i < second.n(),
        ensures
            self.row_of(
                whole,
                Row::Output(head, first.n() + i),
                self.computed(scale, seq![second], self.computed(scale, seq![first], mem)),
            ) == self.row_of(
                whole,
                Row::Output(head, first.n() + i),
                self.computed(scale, seq![whole], mem),
            ),
    {
        let tile = self.tile_ctx as int;
        let kv = self.kv_of(head);
        let n1 = first.n();
        let seen = (whole.pos + n1 + i + 1) as nat;
        let mem1 = self.computed(scale, seq![first], mem);
        assert(seq![whole][0].ok(tile));
        assert(seq![first][0].ok(tile));
        assert(seq![second][0].ok(tile));
        assert(second.s() == whole.s());
        self.lemma_lengths(scale, first, mem);
        heads_share_evenly(self.h as int, self.kvh as int, head);
        pages_hold_sequence(whole, tile);
        self.lemma_part_apart::<T>(whole, second, n1);
        self.lemma_part_row::<T>(whole, second, n1, Row::Output(head, i));
        self.lemma_part_row::<T>(whole, second, n1, Row::Query(head, i));
        self.lemma_row_inside(scale, whole, mem.len(), Row::Query(head, n1 + i));
        self.lemma_part_leaves(scale, whole, first, 0, mem, Row::Query(head, n1 + i));
        assert forall|p: int|
            0 <= p < whole.page_count(tile) * tile implies #[trigger] self.key_after(
            second,
            mem1,
            kv,
            p,
        ) == self.key_after(whole, mem, kv, p) by {
            self.lemma_second_finds(scale, whole, first, second, mem, kv, p);
        }
        assert forall|p: int|
            0 <= p < whole.page_count(tile) * tile implies #[trigger] self.val_after(
            second,
            mem1,
            kv,
            p,
        ) == self.val_after(whole, mem, kv, p) by {
            self.lemma_second_finds(scale, whole, first, second, mem, kv, p);
        }
        assert(all_fin(fin, self.row_of(second, Row::Query(head, i), mem1))) by {
            assert(all_fin(fin, self.row_of(whole, Row::Query(head, n1 + i), mem)));
        }
        self.request_is_causal_attention(fin, scale, whole, mem, head, n1 + i);
        self.request_is_causal_attention(fin, scale, second, mem1, head, i);
        assert(Seq::new(seen, |p: int| self.key_after(second, mem1, kv, p)) =~= Seq::new(
            seen,
            |p: int| self.key_after(whole, mem, kv, p),
        ));
        assert(Seq::new(seen, |p: int| self.val_after(second, mem1, kv, p)) =~= Seq::new(
            seen,
            |p: int| self.val_after(whole, mem, kv, p),
        ));
    }

    /// The places of new rows hold after both parts what they hold after the whole.
    pub(crate) proof fn lemma_parts_place<T: Scalar>(
        self,
        scale: T,
        whole: Attention,
        first: Attention,
        second: Attention,
        mem: Seq<T>,
        head: int,
        p: int,
    )
        requires
            first.part_of(whole, 0),
            second.part_of(whole, first.n()),
            first.n() + second.n() == whole.n(),
            self.rows_match::<T>(whole, first, 0),
            self.rows_match::<T>(whole, second, first.n()),
            self.computable(scale, seq![whole], mem.len()),
            self.computable(scale, seq![first], mem.len()),
            self.computable(scale, seq![second], mem.len()),
            self.tensors_apart::<T>(whole),
            0 <= head < self.kvh,
            whole.pos <= p < whole.s(),
        ensures
            self.row_of(
                whole,
                Row::Key(head, p),
                self.computed(scale, seq![second], self.computed(scale, seq![first], mem)),
            ) == self.row_of(whole, Row::Key(head, p), self.computed(scale, seq![whole], mem)),
            self.row_of(
                whole,
                Row::Val(head, p),
                self.computed(scale, seq![second], self.computed(scale, seq![first], mem)),
            ) == self.row_of(whole, Row::Val(head, p), self.computed(scale, seq![whole], mem)),
    {
        let tile = self.tile_ctx as int;
        let n1 = first.n();
        let mem1 = self.computed(scale, seq![first], mem);
        assert(seq![whole][0].ok(tile));
        assert(seq![second][0].ok(tile));
        assert(second.s() == whole.s());
        self.lemma_lengths(scale, first, mem);
        pages_hold_sequence(whole, tile);
        self.lemma_part_apart::<T>(whole, second, n1);
        self.lemma_part_row::<T>(whole, second, n1, Row::Key(head, p));
        self.lemma_part_row::<T>(whole, second, n1, Row::Val(head, p));
        self.request_takes_its_rows(scale, whole, mem, head, p);
        self.lemma_second_finds(scale, whole, first, second, mem, head, p);
        if second.pos <= p {
            self.request_takes_its_rows(scale, second, mem1, head, p);
        } else {
            self.lemma_row_inside(scale, whole, mem.len(), Row::Key(head, p));
            self.lemma_row_inside(scale, whole, mem.len(), Row::Val(head, p));
            self.lemma_part_leaves(scale, whole, second, n1, mem1, Row::Key(head, p));
            self.lemma_part_leaves(scale, whole, second, n1, mem1, Row::Val(head, p));
        }
    }

    /// What the parts write, the whole writes.
    pub(crate) proof fn lemma_part_touched<T>(self, whole: Attention, part: Attention, from: int, t: int)
        requires
            part.part_of(whole, from),
            whole.ok(self.tile_ctx as int),
            part.ok(self.tile_ctx as int),
            self.rows_match::<T>(whole, part, from),
            self.touched::<T>(part, t),
        ensures
            self.touched::<T>(whole, t),
    {
        let r = choose|r: Row| #[trigger]
            self.in_row::<T>(part, r, t) && self.row_written(part, r);
        self.lemma_part_row::<T>(whole, part, from, r);
        assert(self.in_row::<T>(whole, r.in_whole(from), t));
    }

    /// Computing in two parts is computing at once: in exact arithmetic, a request
    /// whose tensors do not overlap leaves the same memory, cache and output
    /// included, whether its rows are computed at once, or some first and the
    /// others after them.
    pub proof fn computing_in_parts<T: Scalar>(
        self,
        fin: spec_fn(T) -> bool,
        scale: T,
        whole: Attention,
        first: Attention,
        second: Attention,
        mem: Seq<T>,
    )
        requires
            exact(fin),
            fin(scale),
            first.part_of(whole, 0),
            second.part_of(whole, first.n()),
            first.n() + second.n() == whole.n(),
            mem.len() <= usize::MAX,
            self.computable(scale, seq![whole], mem.len()),
            self.computable(scale, seq![first], mem.len()),
            self.computable(scale, seq![second], mem.len()),
            self.tensors_apart::<T>(whole),
            self.finite(fin, whole, mem),
            self.finite(fin, first, mem),
        ensures
            self.computed(scale, seq![second], self.computed(scale, seq![first], mem))
                == self.computed(scale, seq![whole], mem),
    {
        self.lemma_rows_match(scale, whole, first, 0, mem.len());
        self.lemma_rows_match(scale, whole, second, first.n(), mem.len());
        let tile = self.tile_ctx as int;
        let d = self.d as nat;
        let n1 = first.n();
        let mem1 = self.computed(scale, seq![first], mem);
        let parts = self.computed(scale, seq![second], mem1);
        let at_once = self.computed(scale, seq![whole], mem);
        assert(seq![whole][0].ok(tile));
        assert(seq![first][0].ok(tile));
        assert(seq![second][0].ok(tile));
        self.lemma_lengths(scale, whole, mem);
        self.lemma_lengths(scale, first, mem);
        self.lemma_lengths(scale, second, mem1);
        assert forall|t: int| 0 <= t < mem.len() implies parts[t] == at_once[t] by {
            if self.touched::<T>(whole, t) {
                let r = choose|r: Row| #[trigger]
                    self.in_row::<T>(whole, r, t) && self.row_written(whole, r);
                let at = self.row_pos::<T>(whole, r);
                match r {
                    Row::Output(head, iq) => {
                        if iq < n1 {
                            self.lemma_first_output(fin, scale, whole, first, mem, head, iq);
                            self.lemma_row_inside(scale, whole, mem.len(), r);
                            self.lemma_part_leaves(scale, whole, second, n1, mem1, r);
                        } else {
                            self.lemma_second_output(
                                fin,
                                scale,
                                whole,
                                first,
                                second,
                                mem,
                                head,
                                iq - n1,
                            );
                        }
                    },
                    Row::Key(head, p) => {
                        self.lemma_parts_place(scale, whole, first, second, mem, head, p);
                    },
                    Row::Val(head, p) => {
                        self.lemma_parts_place(scale, whole, first, second, mem, head, p);
                    },
                    _ => {},
                }
                assert(read(parts, at, d)[t - at] == read(at_once, at, d)[t - at]);
            } else {
                if self.touched::<T>(first, t) {
                    self.lemma_part_touched::<T>(whole, first, 0, t);
                }
                if self.touched::<T>(second, t) {
                    self.lemma_part_touched::<T>(whole, second, n1, t);
                }
                self.request_leaves_rest(scale, whole, mem, t);
                self.request_leaves_rest(scale, first, mem, t);
                self.request_leaves_rest(scale, second, mem1, t);
            }
        }
        assert(parts =~= at_once);
    }

    /// The new rows of `part` in the memory `m` hold what the rows from `from` on
    /// of `whole` hold in the memory `a`, wherever either has them.
    pub open spec fn same_rows<T>(
        self,
        part: Attention,
        m: Seq<T>,
        whole: Attention,
        a: Seq<T>,
        from: int,
    ) -> bool {
        &&& forall|head: int, i: int|
            0 <= head < self.h && 0 <= i < part.n() ==> #[trigger] self.row_of(
                part,
                Row::Query(head, i),
                m,
            ) == self.row_of(whole, Row::Query(head, from + i), a)
        &&& forall|head: int, i: int|
            0 <= head < self.kvh && 0 <= i < part.n() ==> #[trigger] self.row_of(
                part,
                Row::NewKey(head, i),
                m,
            ) == self.row_of(whole, Row::NewKey(head, from + i), a)
        &&& forall|head: int, i: int|
            0 <= head < self.kvh && 0 <= i < part.n() ==> #[trigger] self.row_of(
                part,
                Row::NewVal(head, i),
                m,
            ) == self.row_of(whole, Row::NewVal(head, from + i), a)
    }

    /// The cache rows that `part` finds filled in the memory `m` hold what the
    /// places of `other` hold in the memory `a`.
    pub open spec fn same_cache<T>(
        self,
        part: Attention,
        m: Seq<T>,
        other: Attention,
        a: Seq<T>,
    ) -> bool {
        &&& forall|head: int, p: int|
            0 <= head < self.kvh && 0 <= p < part.pos ==> #[trigger] self.row_of(
                part,
                Row::Key(head, p),
                m,
            ) == self.row_of(other, Row::Key(head, p), a)
        &&& forall|head: int, p: int|
            0 <= head < self.kvh && 0 <= p < part.pos ==> #[trigger] self.row_of(
                part,
                Row::Val(head, p),
                m,
            ) == self.row_of(other, Row::Val(head, p), a)
    }

    /// The request can be computed, its tensors do not overlap, and what it reads
    /// is finite.
    pub open spec fn sound<T: Scalar>(
        self,
        fin: spec_fn(T) -> bool,
        scale: T,
        req: Attention,
        mem: Seq<T>,
    ) -> bool {
        &&& self.computable(scale, seq![req], mem.len())
        &&& self.tensors_apart::<T>(req)
        &&& self.finite(fin, req, mem)
    }

    /// `first` in the memory `b` and `second` in the memory `c` are the rows of
    /// `whole` in the memory `a`, some and then the others: both start from the
    /// cache that is there before them, which for `second` is what `first` left.
    pub open spec fn in_two<T: Scalar>(
        self,
        scale: T,
        whole: Attention,
        a: Seq<T>,
        first: Attention,
        b: Seq<T>,
        second: Attention,
        c: Seq<T>,
    ) -> bool {
        &&& first.n() > 0
        &&& second.n() > 0
        &&& first.n() + second.n() == whole.n()
        &&& first.pos == whole.pos
        &&& second.pos == whole.pos + first.n()
        &&& self.same_rows(first, b, whole, a, 0)
        &&& self.same_rows(second, c, whole, a, first.n())
        &&& self.same_cache(first, b, whole, a)
        &&& self.same_cache(second, c, first, self.computed(scale, seq![first], b))
    }

    /// What the sequence holds up to each part is what it holds for the whole.
    pub(crate) proof fn lemma_in_two<T: Scalar>(
        self,
        scale: T,
        whole: Attention,
        a: Seq<T>,
        first: Attention,
        b: Seq<T>,
        second: Attention,
        c: Seq<T>,
        head: int,
        p: int,
    )
        requires
            self.h > 0,
            self.in_two(scale, whole, a, first, b, second, c),
            self.computable(scale, seq![first], b.len()),
            self.tensors_apart::<T>(first),
            0 <= head < self.kvh,
            0 <= p < whole.s(),
        ensures
            p < first.s() ==> self.key_after(first, b, head, p) == self.key_after(whole, a, head, p),
            p < first.s() ==> self.val_after(first, b, head, p) == self.val_after(whole, a, head, p),
            self.key_after(second, c, head, p) == self.key_after(whole, a, head, p),
            self.val_after(second, c, head, p) == self.val_after(whole, a, head, p),
    {
        let tile = self.tile_ctx as int;
        assert(seq![first][0].ok(tile));
        pages_hold_sequence(first, tile);
        if p < first.s() {
            if p < first.pos {
                assert(self.row_of(first, Row::Key(head, p), b) == self.row_of(
                    whole,
                    Row::Key(head, p),
                    a,
                ));
                assert(self.row_of(first, Row::Val(head, p), b) == self.row_of(
                    whole,
                    Row::Val(head, p),
                    a,
                ));
            } else {
                let i = p - first.pos;
                assert(self.row_of(first, Row::NewKey(head, i), b) == self.row_of(
                    whole,
                    Row::NewKey(head, i),
                    a,
                ));
                assert(self.row_of(first, Row::NewVal(head, i), b) == self.row_of(
                    whole,
                    Row::NewVal(head, i),
                    a,
                ));
            }
            let after = self.computed(scale, seq![first], b);
            self.request_takes_its_rows(scale, first, b, head, p);
            assert(self.row_of(second, Row::Key(head, p), c) == self.row_of(
                first,
                Row::Key(head, p),
                after,
            ));
            assert(self.row_of(second, Row::Val(head, p), c) == self.row_of(
                first,
                Row::Val(head, p),
                after,
            ));
        } else {
            let i = p - second.pos;
            assert(self.row_of(second, Row::NewKey(head, i), c) == self.row_of(
                whole,
                Row::NewKey(head, first.n() + i),
                a,
            ));
            assert(self.row_of(second, Row::NewVal(head, i), c) == self.row_of(
                whole,
                Row::NewVal(head, first.n() + i),
                a,
            ));
        }
    }

    /// A sequence taken in two calls fills the cache as one call does: after the
    /// second call, each place holds what it holds after the call with all rows.
    /// The calls need not share tensors.
    pub proof fn two_calls_fill_the_cache<T: Scalar>(
        self,
        scale: T,
        whole: Attention,
        a: Seq<T>,
        first: Attention,
        b: Seq<T>,
        second: Attention,
        c: Seq<T>,
        head: int,
        p: int,
    )
        requires
            self.h > 0,
            self.in_two(scale, whole, a, first, b, second, c),
            self.computable(scale, seq![whole], a.len()),
            self.computable(scale, seq![first], b.len()),
            self.computable(scale, seq![second], c.len()),
            self.tensors_apart::<T>(whole),
            self.tensors_apart::<T>(first),
            self.tensors_apart::<T>(second),
            0 <= head < self.kvh,
            0 <= p < whole.s(),
        ensures
            self.row_of(second, Row::Key(head, p), self.computed(scale, seq![second], c))
                == self.row_of(whole, Row::Key(head, p), self.computed(scale, seq![whole], a)),
            self.row_of(second, Row::Val(head, p), self.computed(scale, seq![second], c))
                == self.row_of(whole, Row::Val(head, p), self.computed(scale, seq![whole], a)),
    {
        let tile = self.tile_ctx as int;
        assert(seq![whole][0].ok(tile));
        assert(seq![second][0].ok(tile));
        pages_hold_sequence(whole, tile);
        pages_hold_sequence(second, tile);
        self.lemma_in_two(scale, whole, a, first, b, second, c, head, p);
        self.request_takes_its_rows(scale, whole, a, head, p);
        self.request_takes_its_rows(scale, second, c, head, p);
    }

    /// A sequence taken in two calls gets the same output rows as in one: in exact
    /// arithmetic, those of the first call followed by those of the second are
    /// those of the call with all rows. The calls need not share tensors.
    pub proof fn two_calls_give_the_output<T: Scalar>(
        self,
        fin: spec_fn(T) -> bool,
        scale: T,
        whole: Attention,
        a: Seq<T>,
        first: Attention,
        b: Seq<T>,
        second: Attention,
        c: Seq<T>,
        head: int,
        iq: int,
    )
        requires
            exact(fin),
            fin(scale),
            self.in_two(scale, whole, a, first, b, second, c),
            self.sound(fin, scale, whole, a),
            self.sound(fin, scale, first, b),
            self.sound(fin, scale, second, c),
            0 <= head < self.h,
            0 <= iq < whole.n(),
        ensures
            (if iq < first.n() {
                self.row_of(first, Row::Output(head, iq), self.computed(scale, seq![first], b))
            } else {
                self.row_of(
                    second,
                    Row::Output(head, iq - first.n()),
                    self.computed(scale, seq![second], c),
                )
            }) == self.row_of(whole, Row::Output(head, iq), self.computed(scale, seq![whole], a)),
    {
        let kv = self.kv_of(head);
        let n1 = first.n();
        let seen = (whole.pos + iq + 1) as nat;
        heads_share_evenly(self.h as int, self.kvh as int, head);
        let keys = Seq::new(seen, |p: int| self.key_after(whole, a, kv, p));
        let vals = Seq::new(seen, |p: int| self.val_after(whole, a, kv, p));
        self.request_is_causal_attention(fin, scale, whole, a, head, iq);
        if iq < n1 {
            self.request_is_causal_attention(fin, scale, first, b, head, iq);
            assert(self.row_of(first, Row::Query(head, iq), b) == self.row_of(
                whole,
                Row::Query(head, iq),
                a,
            ));
            assert forall|p: int| 0 <= p < seen implies #[trigger] self.key_after(first, b, kv, p)
                == keys[p] by {
                self.lemma_in_two(scale, whole, a, first, b, second, c, kv, p);
            }
            assert forall|p: int| 0 <= p < seen implies #[trigger] self.val_after(first, b, kv, p)
                == vals[p] by {
                self.lemma_in_two(scale, whole, a, first, b, second, c, kv, p);
            }
            assert(Seq::new(seen, |p: int| self.key_after(first, b, kv, p)) =~= keys);
            assert(Seq::new(seen, |p: int| self.val_after(first, b, kv, p)) =~= vals);
        } else {
            let i = iq - n1;
            self.request_is_causal_attention(fin, scale, second, c, head, i);
            assert(self.row_of(second, Row::Query(head, i), c) == self.row_of(
                whole,
                Row::Query(head, n1 + i),
                a,
            ));
            assert forall|p: int| 0 <= p < seen implies #[trigger] self.key_after(second, c, kv, p)
                == keys[p] by {
                self.lemma_in_two(scale, whole, a, first, b, second, c, kv, p);
            }
            assert forall|p: int| 0 <= p < seen implies #[trigger] self.val_after(second, c, kv, p)
                == vals[p] by {
                self.lemma_in_two(scale, whole, a, first, b, second, c, kv, p);
            }
            assert(Seq::new(seen, |p: int| self.key_after(second, c, kv, p)) =~= keys);
            assert(Seq::new(seen, |p: int| self.val_after(second, c, kv, p)) =~= vals);
        }
    }
}

} // verus!
