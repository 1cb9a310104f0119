//! Taking new keys and values into the cache.
use crate::attention::block::{row_at, row_ok, Block};
use crate::attention::{KernelReq, Strides2D};
use crate::memory::{apply, lemma_apply_len, read, Move};
use vstd::prelude::*;

verus! {

/// The moves stay within a memory of `len` elements.
pub open spec fn within(moves: Seq<Move>, len: nat) -> bool {
    forall|t: int|
        0 <= t < moves.len() ==> 0 <= (#[trigger] moves[t]).0 < len && 0 <= moves[t].1 < len
}

/// No move writes what a later move reads or writes.
pub open spec fn clean(moves: Seq<Move>) -> bool {
    forall|t: int, u: int|
        0 <= t < u < moves.len() ==> (#[trigger] moves[t]).0 != (#[trigger] moves[u]).1
            && moves[t].0 != moves[u].0
}

/// Position `p` is written by one of the moves.
pub open spec fn written(moves: Seq<Move>, p: int) -> bool {
    exists|t: int| 0 <= t < moves.len() && (#[trigger] moves[t]).0 == p
}

/// What no move writes stays as it was.
pub proof fn unwritten_stays<T>(mem: Seq<T>, moves: Seq<Move>, p: int)
    requires
        within(moves, mem.len()),
        0 <= p < mem.len(),
        !written(moves, p),
    ensures
        apply(mem, moves)[p] == mem[p],
    decreases moves.len(),
{
    if moves.len() > 0 {
        let rest = moves.drop_last();
        assert forall|t: int| 0 <= t < rest.len() implies (#[trigger] rest[t]).0 != p by {
            assert(rest[t] == moves[t]);
        }
        assert(within(rest, mem.len())) by {
            assert forall|t: int| 0 <= t < rest.len() implies 0 <= (#[trigger] rest[t]).0 < mem.len()
                && 0 <= rest[t].1 < mem.len() by {
                assert(rest[t] == moves[t]);
            }
        }
        unwritten_stays(mem, rest, p);
        lemma_apply_len(mem, rest);
        assert(moves[moves.len() - 1].0 != p);
    }
}

/// After clean moves, each position written holds what was at the position that
/// it was copied from.
pub proof fn clean_moves_copy<T>(mem: Seq<T>, moves: Seq<Move>, t: int)
    requires
        within(moves, mem.len()),
        clean(moves),
        0 <= t < moves.len(),
    ensures
        apply(mem, moves)[moves[t].0] == mem[moves[t].1],
    decreases moves.len(),
{
    let rest = moves.drop_last();
    let last = moves.len() - 1;
    assert forall|t: int| 0 <= t < rest.len() implies #[trigger] rest[t] == moves[t] by {}
    assert(within(rest, mem.len()));
    lemma_apply_len(mem, rest);
    if t == last {
        assert(!written(rest, moves[last].1)) by {
            assert forall|u: int| 0 <= u < rest.len() implies (#[trigger] rest[u]).0 != moves[last].1 by {
                assert(moves[u].0 != moves[last].1);
            }
        }
        unwritten_stays(mem, rest, moves[last].1);
    } else {
        assert(clean(rest)) by {
            assert forall|a: int, c: int| 0 <= a < c < rest.len() implies (#[trigger] rest[a]).0 != (
            #[trigger] rest[c]).1 && rest[a].0 != rest[c].0 by {
                assert(moves[a].0 != moves[c].1 && moves[a].0 != moves[c].0);
            }
        }
        clean_moves_copy(mem, rest, t);
        assert(rest[t] == moves[t]);
        assert(moves[t].0 != moves[last].0);
    }
}

impl<S> Block<S> {
    /// The moves of the first `count` rows, element by element.
    pub proof fn lemma_moves<T>(self, count: nat)
        ensures
            self.moves::<T>(count).len() == 2 * (count * self.d()),
            forall|i: int, t: int|
                #![trigger self.row_moves::<T>(i)[t]]
                0 <= i < count && 0 <= t < 2 * self.d() ==> self.moves::<T>(count)[2 * (i
                    * self.d()) + t] == self.row_moves::<T>(i)[t],
        decreases count,
    {
        let d = self.d();
        let all = self.moves::<T>(count);
        if count > 0 {
            let c = (count - 1) as nat;
            let before = self.moves::<T>(c);
            let row = self.row_moves::<T>(count - 1);
            self.lemma_moves::<T>(c);
            assert(count * d == c * d + d) by (nonlinear_arith)
                requires
                    count == c + 1,
            ;
            assert forall|i: int, t: int|
                #![trigger self.row_moves::<T>(i)[t]]
                0 <= i < count && 0 <= t < 2 * d implies all[2 * (i * d) + t]
                == self.row_moves::<T>(i)[t] by {
                if i < c {
                    crate::attention::online::lemma_row_fits(i, c as int, d as int);
                    assert(before[2 * (i * d) + t] == self.row_moves::<T>(i)[t]);
                } else {
                    assert(i * d == c * d);
                }
            }
        }
    }

    /// Move `m` of the first `count` rows is move `t` of row `i`.
    pub proof fn lemma_move_of<T>(self, count: nat, m: int) -> (r: (int, int))
        requires
            0 <= m < self.moves::<T>(count).len(),
        ensures
            0 <= r.0 < count,
            0 <= r.1 < 2 * self.d(),
            m == 2 * (r.0 * self.d()) + r.1,
            self.moves::<T>(count)[m] == self.row_moves::<T>(r.0)[r.1],
        decreases count,
    {
        let c = (count - 1) as nat;
        let before = self.moves::<T>(c);
        self.lemma_moves::<T>(c);
        if m < before.len() {
            self.lemma_move_of::<T>(c, m)
        } else {
            (count - 1, m - before.len())
        }
    }

    /// The moves of a block stay within the memory that the block was found to
    /// lie in.
    pub proof fn lemma_moves_within<T>(self, len: nat)
        requires
            self.concat_ok::<T>(len),
        ensures
            within(self.concat_moves::<T>(), len),
    {
        let moves = self.concat_moves::<T>();
        self.lemma_moves::<T>(self.req.n as nat);
        assert forall|m: int| 0 <= m < moves.len() implies 0 <= (#[trigger] moves[m]).0 < len && 0
            <= moves[m].1 < len by {
            let (i, t) = self.lemma_move_of::<T>(self.req.n as nat, m);
            assert(self.concat_row_ok::<T>(len, i));
            let size = vstd::layout::size_of::<T>() as int;
            vstd::arithmetic::div_mod::lemma_div_pos_is_pos(
                self.req.k + self.req.k_strides.at(self.head, i),
                size,
            );
            vstd::arithmetic::div_mod::lemma_div_pos_is_pos(
                self.req.v + self.req.v_strides.at(self.head, i),
                size,
            );
            let page = self.page(self.place(i) / self.bs());
            let off = self.req.kv_strides.at(self.head, self.place(i) % self.bs());
            vstd::arithmetic::div_mod::lemma_div_pos_is_pos(page.k + off, size);
            vstd::arithmetic::div_mod::lemma_div_pos_is_pos(page.v + off, size);
        }
    }

    /// A read of the cache gives back what was written: where no move of the
    /// block writes what a later one reads or writes, the place of each new row
    /// holds that row's key and value.
    pub proof fn concat_reads_back<T>(self, mem: Seq<T>, i: int)
        requires
            self.concat_ok::<T>(mem.len()),
            clean(self.concat_moves::<T>()),
            0 <= i < self.req.n,
        ensures
            read(apply(mem, self.concat_moves::<T>()), self.k_dst::<T>(i), self.d()) == read(
                mem,
                self.k_src::<T>(i),
                self.d(),
            ),
            read(apply(mem, self.concat_moves::<T>()), self.v_dst::<T>(i), self.d()) == read(
                mem,
                self.v_src::<T>(i),
                self.d(),
            ),
    {
        let d = self.d();
        let moves = self.concat_moves::<T>();
        let after = apply(mem, moves);
        self.lemma_moves::<T>(self.req.n as nat);
        self.lemma_moves_within::<T>(mem.len());
        crate::attention::online::lemma_row_fits(i, self.req.n as int, d as int);
        assert forall|e: int| 0 <= e < d implies #[trigger] read(after, self.k_dst::<T>(i), d)[e]
            == read(mem, self.k_src::<T>(i), d)[e] by {
            assert(self.row_moves::<T>(i)[2 * e] == moves[2 * (i * d) + 2 * e]);
            clean_moves_copy(mem, moves, 2 * (i * d) + 2 * e);
        }
        assert forall|e: int| 0 <= e < d implies #[trigger] read(after, self.v_dst::<T>(i), d)[e]
            == read(mem, self.v_src::<T>(i), d)[e] by {
            assert(self.row_moves::<T>(i)[2 * e + 1] == moves[2 * (i * d) + 2 * e + 1]);
            clean_moves_copy(mem, moves, 2 * (i * d) + 2 * e + 1);
        }
        assert(read(after, self.k_dst::<T>(i), d) =~= read(mem, self.k_src::<T>(i), d));
        assert(read(after, self.v_dst::<T>(i), d) =~= read(mem, self.v_src::<T>(i), d));
    }

    /// Position `p` lies in the place of a new row's key or value.
    pub open spec fn taken<T>(self, p: int) -> bool {
        exists|i: int| #[trigger] self.takes::<T>(i, p)
    }

    /// Position `p` lies in the place of new row `i`'s key or value.
    pub open spec fn takes<T>(self, i: int, p: int) -> bool {
        &&& 0 <= i < self.req.n
        &&& self.k_dst::<T>(i) <= p < self.k_dst::<T>(i) + self.d() || self.v_dst::<T>(i) <= p
            < self.v_dst::<T>(i) + self.d()
    }

    /// The block changes nothing but the places of the new rows.
    pub proof fn concat_leaves_rest<T>(self, mem: Seq<T>, p: int)
        requires
            self.concat_ok::<T>(mem.len()),
            0 <= p < mem.len(),
            !self.taken::<T>(p),
        ensures
            apply(mem, self.concat_moves::<T>())[p] == mem[p],
    {
        let moves = self.concat_moves::<T>();
        self.lemma_moves_within::<T>(mem.len());
        if written(moves, p) {
            let m = choose|m: int| 0 <= m < moves.len() && (#[trigger] moves[m]).0 == p;
            let (i, t) = self.lemma_move_of::<T>(self.req.n as nat, m);
            assert(self.takes::<T>(i, p));
        }
        unwritten_stays(mem, moves, p);
    }

    /// The position of the key at place `p` of the sequence.
    pub open spec fn k_row<T>(self, p: int) -> int {
        self.k_at::<T>(self.head, p / self.bs(), p % self.bs())
    }

    /// The position of the value at place `p` of the sequence.
    pub open spec fn v_row<T>(self, p: int) -> int {
        self.v_at::<T>(self.head, p / self.bs(), p % self.bs())
    }

    /// The places of the sequence do not overlap, neither one another nor, where
    /// new rows go, the new rows.
    pub open spec fn apart<T>(self) -> bool {
        let d = self.d();
        let s = self.req.s as int;
        &&& forall|p: int, r: int|
            #![trigger self.k_row::<T>(p), self.k_row::<T>(r)]
            0 <= p < r < s ==> disjoint(self.k_row::<T>(p), self.k_row::<T>(r), d)
        &&& forall|p: int, r: int|
            #![trigger self.v_row::<T>(p), self.v_row::<T>(r)]
            0 <= p < r < s ==> disjoint(self.v_row::<T>(p), self.v_row::<T>(r), d)
        &&& forall|p: int, r: int|
            #![trigger self.k_row::<T>(p), self.v_row::<T>(r)]
            0 <= p < s && 0 <= r < s ==> disjoint(self.k_row::<T>(p), self.v_row::<T>(r), d)
        &&& forall|p: int, i: int|
            #![trigger self.k_row::<T>(p), self.k_src::<T>(i)]
            self.place(0) <= p < s && 0 <= i < self.req.n ==> disjoint(
                self.k_row::<T>(p),
                self.k_src::<T>(i),
                d,
            )
        &&& forall|p: int, i: int|
            #![trigger self.k_row::<T>(p), self.v_src::<T>(i)]
            self.place(0) <= p < s && 0 <= i < self.req.n ==> disjoint(
                self.k_row::<T>(p),
                self.v_src::<T>(i),
                d,
            )
        &&& forall|p: int, i: int|
            #![trigger self.v_row::<T>(p), self.k_src::<T>(i)]
            self.place(0) <= p < s && 0 <= i < self.req.n ==> disjoint(
                self.v_row::<T>(p),
                self.k_src::<T>(i),
                d,
            )
        &&& forall|p: int, i: int|
            #![trigger self.v_row::<T>(p), self.v_src::<T>(i)]
            self.place(0) <= p < s && 0 <= i < self.req.n ==> disjoint(
                self.v_row::<T>(p),
                self.v_src::<T>(i),
                d,
            )
    }

    /// Rows that are apart are copied by clean moves.
    pub proof fn lemma_apart_clean<T>(self)
        requires
            self.req.n <= self.req.s,
            self.apart::<T>(),
        ensures
            clean(self.concat_moves::<T>()),
    {
        let d = self.d();
        let moves = self.concat_moves::<T>();
        assert forall|t: int, u: int| 0 <= t < u < moves.len() implies (#[trigger] moves[t]).0 != (
        #[trigger] moves[u]).1 && moves[t].0 != moves[u].0 by {
            let (i, a) = self.lemma_move_of::<T>(self.req.n as nat, t);
            let (j, c) = self.lemma_move_of::<T>(self.req.n as nat, u);
            let p = self.place(i);
            let r = self.place(j);
            assert(self.k_dst::<T>(i) == self.k_row::<T>(p));
            assert(self.v_dst::<T>(i) == self.v_row::<T>(p));
            assert(self.k_dst::<T>(j) == self.k_row::<T>(r));
            assert(self.v_dst::<T>(j) == self.v_row::<T>(r));
            assert(disjoint(self.k_row::<T>(p), self.k_src::<T>(j), d));
            assert(disjoint(self.k_row::<T>(p), self.v_src::<T>(j), d));
            assert(disjoint(self.v_row::<T>(p), self.k_src::<T>(j), d));
            assert(disjoint(self.v_row::<T>(p), self.v_src::<T>(j), d));
            assert(disjoint(self.k_row::<T>(p), self.v_row::<T>(r), d));
            assert(disjoint(self.k_row::<T>(r), self.v_row::<T>(p), d));
            if p < r {
                assert(disjoint(self.k_row::<T>(p), self.k_row::<T>(r), d));
                assert(disjoint(self.v_row::<T>(p), self.v_row::<T>(r), d));
            } else if r < p {
                assert(disjoint(self.k_row::<T>(r), self.k_row::<T>(p), d));
                assert(disjoint(self.v_row::<T>(r), self.v_row::<T>(p), d));
            } else {
                assert(a < c);
            }
        }
    }

    /// The cache grows by the new rows: where the rows are apart, the places
    /// before the new rows hold what they held, and the places of the new rows
    /// hold the new rows.
    pub proof fn cache_grows<T>(self, mem: Seq<T>, p: int)
        requires
            self.concat_ok::<T>(mem.len()),
            self.apart::<T>(),
            0 <= p < self.req.s,
            self.cache_row_ok::<T>(mem.len(), self.head, p / self.bs(), p % self.bs()),
        ensures
            read(apply(mem, self.concat_moves::<T>()), self.k_row::<T>(p), self.d()) == (if p
                < self.place(0) {
                read(mem, self.k_row::<T>(p), self.d())
            } else {
                read(mem, self.k_src::<T>(p - self.place(0)), self.d())
            }),
            read(apply(mem, self.concat_moves::<T>()), self.v_row::<T>(p), self.d()) == (if p
                < self.place(0) {
                read(mem, self.v_row::<T>(p), self.d())
            } else {
                read(mem, self.v_src::<T>(p - self.place(0)), self.d())
            }),
    {
        let d = self.d();
        let after = apply(mem, self.concat_moves::<T>());
        if p < self.place(0) {
            let page = self.page(p / self.bs());
            let off = self.req.kv_strides.at(self.head, p % self.bs());
            let size = vstd::layout::size_of::<T>() as int;
            vstd::arithmetic::div_mod::lemma_div_pos_is_pos(page.k + off, size);
            vstd::arithmetic::div_mod::lemma_div_pos_is_pos(page.v + off, size);
            assert forall|e: int| 0 <= e < d implies #[trigger] read(after, self.k_row::<T>(p), d)[e]
                == read(mem, self.k_row::<T>(p), d)[e] && read(after, self.v_row::<T>(p), d)[e]
                == read(mem, self.v_row::<T>(p), d)[e] by {
                let x = self.k_row::<T>(p) + e;
                let y = self.v_row::<T>(p) + e;
                assert forall|i: int| !#[trigger] self.takes::<T>(i, x) && !self.takes::<T>(i, y) by {
                    if 0 <= i < self.req.n {
                        let r = self.place(i);
                        assert(self.k_dst::<T>(i) == self.k_row::<T>(r));
                        assert(self.v_dst::<T>(i) == self.v_row::<T>(r));
                        assert(disjoint(self.k_row::<T>(p), self.k_row::<T>(r), d));
                        assert(disjoint(self.v_row::<T>(p), self.v_row::<T>(r), d));
                        assert(disjoint(self.k_row::<T>(p), self.v_row::<T>(r), d));
                        assert(disjoint(self.k_row::<T>(r), self.v_row::<T>(p), d));
                    }
                }
                assert(!self.taken::<T>(y)) by {
                    if self.taken::<T>(y) {
                        let i = choose|i: int| #[trigger] self.takes::<T>(i, y);
                        assert(!self.takes::<T>(i, x));
                    }
                }
                self.concat_leaves_rest(mem, x);
                self.concat_leaves_rest(mem, y);
            }
            assert(read(after, self.k_row::<T>(p), d) =~= read(mem, self.k_row::<T>(p), d));
            assert(read(after, self.v_row::<T>(p), d) =~= read(mem, self.v_row::<T>(p), d)) by {
                assert forall|e: int| 0 <= e < d implies #[trigger] read(
                    after,
                    self.v_row::<T>(p),
                    d,
                )[e] == read(mem, self.v_row::<T>(p), d)[e] by {
                    assert(read(after, self.k_row::<T>(p), d)[e] == read(mem, self.k_row::<T>(p), d)[e]);
                }
            }
        } else {
            let i = p - self.place(0);
            self.lemma_apart_clean::<T>();
            self.concat_reads_back(mem, i);
            assert(self.place(i) == p);
        }
    }
}

/// Moves made one list after the other are the moves of both lists.
pub proof fn lemma_apply_join<T>(mem: Seq<T>, a: Seq<Move>, b: Seq<Move>)
    ensures
        apply(apply(mem, a), b) == apply(mem, a + b),
    decreases b.len(),
{
    if b.len() == 0 {
        assert(a + b =~= a);
    } else {
        assert((a + b).drop_last() =~= a + b.drop_last());
        lemma_apply_join(mem, a, b.drop_last());
    }
}

impl<S> Block<S> {
    /// The block with the first `n1` new rows only.
    pub open spec fn head_part(self, n1: int) -> Block<S> {
        Block {
            req: KernelReq {
                n: n1 as usize,
                s: (self.req.s - self.req.n + n1) as usize,
                ..self.req
            },
            ..self
        }
    }

    /// The block with the new rows from `n1` on only: the tensors that hold them
    /// start at that row.
    pub open spec fn tail_part(self, n1: int) -> Block<S> {
        Block {
            req: KernelReq {
                k: (self.req.k + self.req.k_strides.at(0, n1)) as usize,
                v: (self.req.v + self.req.v_strides.at(0, n1)) as usize,
                n: (self.req.n - n1) as usize,
                ..self.req
            },
            ..self
        }
    }

    proof fn lemma_head_moves<T>(self, n1: int, count: nat)
        requires
            self.req.n <= self.req.s,
            count <= n1 <= self.req.n,
        ensures
            self.head_part(n1).moves::<T>(count) == self.moves::<T>(count),
        decreases count,
    {
        if count > 0 {
            self.lemma_head_moves::<T>(n1, (count - 1) as nat);
            assert(self.head_part(n1).place(count - 1) == self.place(count - 1));
            assert(self.head_part(n1).row_moves::<T>(count - 1) =~= self.row_moves::<T>(count - 1));
        }
    }

    proof fn lemma_tail_moves<T>(self, len: nat, n1: int, count: nat)
        requires
            len <= usize::MAX,
            self.concat_ok::<T>(len),
            self.tail_part(n1).concat_ok::<T>(len),
            0 <= n1,
            n1 + count <= self.req.n,
            0 <= self.req.k + self.req.k_strides.at(0, n1) <= usize::MAX,
            0 <= self.req.v + self.req.v_strides.at(0, n1) <= usize::MAX,
        ensures
            self.moves::<T>((n1 + count) as nat) == self.moves::<T>(n1 as nat)
                + self.tail_part(n1).moves::<T>(count),
        decreases count,
    {
        let tail = self.tail_part(n1);
        let n = self.req.n as int;
        if count == 0 {
            assert(self.moves::<T>(n1 as nat) + tail.moves::<T>(0) =~= self.moves::<T>(n1 as nat));
        } else {
            let c = count - 1;
            self.lemma_tail_moves::<T>(len, n1, c as nat);
            assert(tail.place(c) == self.place(n1 + c));
            assert(tail.concat_row_ok::<T>(len, c));
            assert forall|i: int| 0 <= i < n implies #[trigger] row_ok::<T>(
                len,
                self.req.k,
                self.req.k_strides,
                self.head,
                i,
                self.d(),
            ) by {
                assert(self.concat_row_ok::<T>(len, i));
            }
            assert forall|i: int| 0 <= i < n implies #[trigger] row_ok::<T>(
                len,
                self.req.v,
                self.req.v_strides,
                self.head,
                i,
                self.d(),
            ) by {
                assert(self.concat_row_ok::<T>(len, i));
            }
            lemma_row_moved::<T>(
                len,
                self.req.k,
                tail.req.k,
                self.req.k_strides,
                self.head,
                n1,
                c,
                n,
                self.d(),
            );
            lemma_row_moved::<T>(
                len,
                self.req.v,
                tail.req.v,
                self.req.v_strides,
                self.head,
                n1,
                c,
                n,
                self.d(),
            );
            assert(tail.row_moves::<T>(c) =~= self.row_moves::<T>(n1 + c));
            assert(self.moves::<T>((n1 + count) as nat) =~= self.moves::<T>(n1 as nat)
                + tail.moves::<T>(count));
        }
    }

    /// Appending in two parts is appending at once: taking the first `n1` new
    /// rows into the cache and then the others leaves the memory as taking all of
    /// them does, overlapping rows or not.
    pub proof fn concat_in_parts<T>(self, mem: Seq<T>, n1: int)
        requires
            mem.len() <= usize::MAX,
            self.concat_ok::<T>(mem.len()),
            self.tail_part(n1).concat_ok::<T>(mem.len()),
            0 <= n1 <= self.req.n,
            0 <= self.req.k + self.req.k_strides.at(0, n1) <= usize::MAX,
            0 <= self.req.v + self.req.v_strides.at(0, n1) <= usize::MAX,
        ensures
            self.head_part(n1).concat_ok::<T>(mem.len()),
            apply(
                apply(mem, self.head_part(n1).concat_moves::<T>()),
                self.tail_part(n1).concat_moves::<T>(),
            ) == apply(mem, self.concat_moves::<T>()),
    {
        let head = self.head_part(n1);
        assert forall|i: int| 0 <= i < n1 implies #[trigger] head.concat_row_ok::<T>(
            mem.len(),
            i,
        ) by {
            assert(self.concat_row_ok::<T>(mem.len(), i));
            assert(head.place(i) == self.place(i));
        }
        self.lemma_head_moves::<T>(n1, n1 as nat);
        self.lemma_tail_moves::<T>(mem.len(), n1, (self.req.n - n1) as nat);
        lemma_apply_join(
            mem,
            self.head_part(n1).concat_moves::<T>(),
            self.tail_part(n1).concat_moves::<T>(),
        );
    }
}

/// A number beyond `isize` is taken for one below zero.
pub(crate) proof fn lemma_wraps(u: usize)
    requires
        u > isize::MAX,
    ensures
        u as isize == u - usize::MAX - 1,
{
    assert(u > (!0usize >> 1) ==> (u as isize) + (!0usize) + 1 == u) by (bit_vector);
    assert(!0usize == usize::MAX && !0usize >> 1 == isize::MAX) by {
        assert(usize::BITS == 32 ==> !0usize == 0xffff_ffff && !0usize >> 1 == 0x7fff_ffff)
            by (bit_vector);
        assert(usize::BITS == 64 ==> !0usize == 0xffff_ffff_ffff_ffff && !0usize >> 1
            == 0x7fff_ffff_ffff_ffff) by (bit_vector);
    }
}

/// A row counted from row `from` is that row counted from the first, if the rows
/// lie in a memory either way: too many to be counted in an `isize` can only lie
/// there if they are all one row.
pub proof fn lemma_row_moved<T>(
    len: nat,
    base: usize,
    moved: usize,
    strides: Strides2D,
    head: int,
    from: int,
    seq: int,
    n: int,
    d: nat,
)
    requires
        len <= usize::MAX,
        n <= usize::MAX,
        0 <= from,
        0 <= seq,
        from + seq < n,
        moved == base + strides.at(0, from),
        forall|i: int| 0 <= i < n ==> #[trigger] row_ok::<T>(len, base, strides, head, i, d),
        row_ok::<T>(len, moved, strides, head, seq, d),
    ensures
        row_at::<T>(moved, strides, head, seq) == row_at::<T>(base, strides, head, from + seq),
{
    let ss = strides.seq as int;
    let size = vstd::layout::size_of::<T>() as int;
    let top = isize::MAX as int;
    let last = from + seq;
    assert(0 * strides.head == 0);
    if last <= top {
        assert(from * ss + seq * ss == last * ss) by (nonlinear_arith)
            requires
                last == from + seq,
        ;
    } else {
        lemma_wraps(last as usize);
        let all = usize::MAX + 1;
        if from > top {
            lemma_wraps(from as usize);
            assert((from - all) * ss + seq * ss == (last - all) * ss) by (nonlinear_arith)
                requires
                    last == from + seq,
            ;
        } else if seq > top {
            lemma_wraps(seq as usize);
            assert(from * ss + (seq - all) * ss == (last - all) * ss) by (nonlinear_arith)
                requires
                    last == from + seq,
            ;
        } else {
            // rows 0, 1, isize::MAX and the one after it lie in the memory
            assert(row_ok::<T>(len, base, strides, head, 0, d));
            assert(row_ok::<T>(len, base, strides, head, 1, d));
            assert(row_ok::<T>(len, base, strides, head, top, d));
            assert(row_ok::<T>(len, base, strides, head, top + 1, d));
            assert(row_ok::<T>(len, base, strides, head, last, d));
            lemma_wraps((top + 1) as usize);
            assert(isize::MIN == -top - 1 && all == 2 * (top + 1));
            assert(0 <= ss <= 1) by (nonlinear_arith)
                requires
                    top >= 3,
                    -top - 1 <= top * ss <= top,
                    -top - 1 <= (-top - 1) * ss <= top,
            ;
            if ss == 1 {
                let x = base + strides.at(head, 0);
                assert(base + strides.at(head, 1) == x + 1);
                assert(size == 1) by (nonlinear_arith)
                    requires
                        size > 0,
                        x % size == 0,
                        (x + 1) % size == 0,
                {
                    vstd::arithmetic::div_mod::lemma_fundamental_div_mod(x, size);
                    vstd::arithmetic::div_mod::lemma_fundamental_div_mod(x + 1, size);
                    let a = x / size;
                    let b = (x + 1) / size;
                    assert(size * (b - a) == 1);
                }
                let low = base + strides.at(head, last);
                let high = moved + strides.at(head, seq);
                assert(from * ss == from && seq * ss == seq && (last - all) * ss == last - all)
                    by (nonlinear_arith)
                    requires
                        ss == 1,
                ;
                assert(high == low + all);
                assert(low >= 0);
                assert(high / size == high) by (nonlinear_arith)
                    requires
                        size == 1,
                ;
                assert(false);
            }
            assert(from * ss == 0 && seq * ss == 0 && (last - all) * ss == 0) by (nonlinear_arith)
                requires
                    ss == 0,
            ;
        }
    }
}

/// Two rows of `d` elements, at `a` and at `b`, do not overlap.
pub open spec fn disjoint(a: int, b: int, d: nat) -> bool {
    a + d <= b || b + d <= a
}

} // verus!
