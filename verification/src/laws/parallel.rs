//! Blocks that keep out of each other's way can run in any order.
use crate::attention::driver::BatchView;
use crate::laws::concat::{unwritten_stays, within, written};
use crate::laws::order::{any_order, commuting};
use crate::memory::{apply, lemma_apply_len, Move};
use vstd::prelude::*;

verus! {

/// Position `p` is read by one of the moves.
pub open spec fn copied(moves: Seq<Move>, p: int) -> bool {
    exists|t: int| 0 <= t < moves.len() && (#[trigger] moves[t]).1 == p
}

/// Memories that agree where moves read agree, after the moves, where they write.
proof fn lemma_moves_local<T>(a: Seq<T>, b: Seq<T>, moves: Seq<Move>)
    requires
        a.len() == b.len(),
        within(moves, a.len()),
        forall|p: int| copied(moves, p) ==> a[p] == b[p],
    ensures
        forall|p: int|
            #![trigger apply(a, moves)[p]]
            written(moves, p) || (0 <= p < a.len() && a[p] == b[p]) ==> apply(a, moves)[p] == apply(
                b,
                moves,
            )[p],
    decreases moves.len(),
{
    if moves.len() > 0 {
        let rest = moves.drop_last();
        let last = moves.last();
        assert forall|t: int| 0 <= t < rest.len() implies #[trigger] rest[t] == moves[t] by {}
        assert(within(rest, a.len()));
        assert forall|p: int| copied(rest, p) implies a[p] == b[p] by {
            let t = choose|t: int| 0 <= t < rest.len() && (#[trigger] rest[t]).1 == p;
            assert(moves[t].1 == p);
            assert(copied(moves, p));
        }
        lemma_moves_local(a, b, rest);
        lemma_apply_len(a, rest);
        lemma_apply_len(b, rest);
        assert(moves[moves.len() - 1].1 == last.1);
        assert(copied(moves, last.1));
        assert(apply(a, rest)[last.1] == apply(b, rest)[last.1]);
        assert forall|p: int|
            #![trigger apply(a, moves)[p]]
            written(moves, p) || (0 <= p < a.len() && a[p] == b[p]) implies apply(a, moves)[p]
            == apply(b, moves)[p] by {
            if p != last.0 {
                if written(moves, p) {
                    let t = choose|t: int| 0 <= t < moves.len() && (#[trigger] moves[t]).0 == p;
                    assert(rest[t].0 == p);
                    assert(0 <= p < a.len());
                    assert(written(rest, p));
                }
                assert(apply(a, rest)[p] == apply(b, rest)[p]);
            }
        }
    }
}

/// Neither of two lists of moves writes what the other reads or writes.
pub open spec fn independent(a: Seq<Move>, b: Seq<Move>) -> bool {
    forall|p: int|
        #![trigger written(a, p)]
        #![trigger written(b, p)]
        !(written(a, p) && (written(b, p) || copied(b, p))) && !(written(b, p) && copied(a, p))
}

/// Independent moves commute.
pub proof fn independent_moves_commute<T>(mem: Seq<T>, a: Seq<Move>, b: Seq<Move>)
    requires
        within(a, mem.len()),
        within(b, mem.len()),
        independent(a, b),
    ensures
        apply(apply(mem, a), b) == apply(apply(mem, b), a),
{
    let ma = apply(mem, a);
    let mb = apply(mem, b);
    lemma_apply_len(mem, a);
    lemma_apply_len(mem, b);
    lemma_apply_len(ma, b);
    lemma_apply_len(mb, a);
    assert forall|p: int| copied(b, p) implies mem[p] == ma[p] by {
        assert(!written(a, p));
        unwritten_stays(mem, a, p);
    }
    assert forall|p: int| copied(a, p) implies mem[p] == mb[p] by {
        assert(!written(b, p));
        unwritten_stays(mem, b, p);
    }
    lemma_moves_local(mem, ma, b);
    lemma_moves_local(mem, mb, a);
    assert forall|p: int| 0 <= p < mem.len() implies apply(ma, b)[p] == apply(mb, a)[p] by {
        if written(a, p) {
            assert(!written(b, p));
            unwritten_stays(ma, b, p);
            assert(apply(mem, a)[p] == apply(mb, a)[p]);
        } else if written(b, p) {
            unwritten_stays(mb, a, p);
            assert(apply(mem, b)[p] == apply(ma, b)[p]);
        } else {
            unwritten_stays(mem, a, p);
            unwritten_stays(ma, b, p);
            unwritten_stays(mem, b, p);
            unwritten_stays(mb, a, p);
        }
    }
    assert(apply(ma, b) =~= apply(mb, a));
}

impl<S> BatchView<S> {
    /// The blocks `ids` take their rows into the cache without getting into each
    /// other's way.
    pub open spec fn concat_independent<T>(self, ids: Seq<(usize, usize)>) -> bool {
        forall|x: (usize, usize), y: (usize, usize)|
            ids.contains(x) && ids.contains(y) && x != y ==> independent(
                (#[trigger] self.block(x)).concat_moves::<T>(),
                (#[trigger] self.block(y)).concat_moves::<T>(),
            )
    }

    /// What the blocks `ids` copy lies in a memory of `len` elements.
    pub open spec fn concat_ok<T>(self, len: nat, ids: Seq<(usize, usize)>) -> bool {
        forall|x: (usize, usize)|
            ids.contains(x) ==> (#[trigger] self.block(x)).concat_ok::<T>(len)
    }

    /// Blocks that keep out of each other's way commute.
    pub proof fn lemma_concat_commutes<T>(self, len: nat, ids: Seq<(usize, usize)>)
        requires
            self.concat_ok::<T>(len, ids),
            self.concat_independent::<T>(ids),
        ensures
            commuting(self.concat_step::<T>(), |m: Seq<T>| m.len() == len, ids),
    {
        let f = self.concat_step::<T>();
        let inv = |m: Seq<T>| m.len() == len;
        assert forall|m: Seq<T>, x: (usize, usize)| inv(m) && ids.contains(x) implies inv(
            #[trigger] f(m, x),
        ) by {
            self.block(x).lemma_moves_within::<T>(len);
            lemma_apply_len(m, self.block(x).concat_moves::<T>());
        }
        assert forall|m: Seq<T>, x: (usize, usize), y: (usize, usize)|
            inv(m) && ids.contains(x) && ids.contains(y) && x != y implies #[trigger] f(f(m, x), y)
            == f(f(m, y), x) by {
            self.block(x).lemma_moves_within::<T>(len);
            self.block(y).lemma_moves_within::<T>(len);
            independent_moves_commute(
                m,
                self.block(x).concat_moves::<T>(),
                self.block(y).concat_moves::<T>(),
            );
        }
    }

    /// The blocks that take new keys and values into the cache can run in any
    /// order, where no block writes what another reads or writes.
    pub proof fn concat_in_any_order<T>(
        self,
        mem: Seq<T>,
        ids: Seq<(usize, usize)>,
        order: Seq<(usize, usize)>,
    )
        requires
            self.concat_ok::<T>(mem.len(), ids),
            self.concat_independent::<T>(ids),
            ids.to_multiset() == order.to_multiset(),
        ensures
            self.concatenated(mem, ids) == self.concatenated(mem, order),
    {
        self.lemma_concat_commutes::<T>(mem.len(), ids);
        any_order(self.concat_step::<T>(), |m: Seq<T>| m.len() == mem.len(), mem, ids, order);
    }
}

} // verus!
