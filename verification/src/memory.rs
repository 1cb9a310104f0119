//! Element memory, addressed in bytes.
use vstd::prelude::*;

verus! {

/// The position in the memory of the element at byte address `addr`.
pub open spec fn elem<T>(addr: int) -> int {
    addr / (vstd::layout::size_of::<T>() as int)
}

/// `count` elements lie in a memory of `len` elements from byte address `addr`
/// on, each at an address that an element can have.
pub open spec fn spans<T>(len: nat, addr: int, count: nat) -> bool {
    &&& vstd::layout::size_of::<T>() > 0
    &&& addr >= 0
    &&& addr % (vstd::layout::size_of::<T>() as int) == 0
    &&& elem::<T>(addr) + count <= len
}

/// The position of the element `off` bytes away from address `base`.
pub fn locate<T>(mem: &[T], base: usize, off: isize, count: usize) -> (at: usize)
    requires
        spans::<T>(mem@.len(), base + off, count as nat),
    ensures
        at == elem::<T>(base + off),
        at + count <= mem@.len(),
{
    let len: usize = mem.len();
    let size: usize = std::mem::size_of::<T>();
    let addr: i128 = base as i128 + off as i128;
    proof {
        vstd::arithmetic::div_mod::lemma_div_pos_is_pos(base + off, size as int);
    }
    (addr as u128 / size as u128) as usize
}

/// One element copied: the position written and the position read.
pub type Move = (int, int);

/// The memory after the moves `moves`, made one after the other.
pub open spec fn apply<T>(mem: Seq<T>, moves: Seq<Move>) -> Seq<T>
    decreases moves.len(),
{
    if moves.len() == 0 {
        mem
    } else {
        let m = apply(mem, moves.drop_last());
        m.update(moves.last().0, m[moves.last().1])
    }
}

/// Moves leave the length of the memory as it is.
pub proof fn lemma_apply_len<T>(mem: Seq<T>, moves: Seq<Move>)
    requires
        forall|t: int| 0 <= t < moves.len() ==> 0 <= (#[trigger] moves[t]).0 < mem.len(),
    ensures
        apply(mem, moves).len() == mem.len(),
    decreases moves.len(),
{
    if moves.len() > 0 {
        lemma_apply_len(mem, moves.drop_last());
    }
}

/// The memory with `row` written from position `at` on.
pub open spec fn put<T>(mem: Seq<T>, at: int, row: Seq<T>) -> Seq<T> {
    Seq::new(
        mem.len(),
        |p: int| if at <= p < at + row.len() { row[p - at] } else { mem[p] },
    )
}

/// The `count` elements of the memory from position `at` on.
pub open spec fn read<T>(mem: Seq<T>, at: int, count: nat) -> Seq<T> {
    Seq::new(count, |t: int| mem[at + t])
}

} // verus!
