//! What the operations do, in terms of what goes into a call and what comes out.
use crate::attention::block::{row_at, row_ok};
use crate::attention::Strides2D;
use crate::laws::concat::lemma_wraps;
use vstd::prelude::*;

pub mod append;
pub mod attend;
pub mod batches;
pub mod device;
pub mod numbers;
pub mod pairs;
pub mod softmax;
pub mod tensors;
pub mod workspace;

verus! {

/// Bytes of an element.
pub open spec fn width<T>() -> int {
    vstd::layout::size_of::<T>() as int
}

/// What an index counts for in strides: beyond `isize` it is taken for a number
/// below zero.
pub open spec fn counted(i: int) -> int {
    if i <= isize::MAX {
        i
    } else {
        i - usize::MAX - 1
    }
}

/// The byte address of row `row` of head `head` of a tensor at `base` with byte
/// strides `heads` and `rows`.
pub open spec fn address(base: int, heads: int, rows: int, head: int, row: int) -> int {
    base + counted(head) * heads + counted(row) * rows
}

/// The position of the element at a byte address.
pub open spec fn position<T>(addr: int) -> int {
    addr / width::<T>()
}

/// `x` can be held in an `isize`.
pub open spec fn holds(x: int) -> bool {
    isize::MIN <= x && x <= isize::MAX
}

/// A row of `d` elements can be reached and lies in a memory of `len` elements.
pub open spec fn reachable<T>(
    len: int,
    base: int,
    heads: int,
    rows: int,
    head: int,
    row: int,
    d: int,
) -> bool {
    &&& holds(counted(head) * heads)
    &&& holds(counted(row) * rows)
    &&& holds(counted(head) * heads + counted(row) * rows)
    &&& width::<T>() > 0
    &&& address(base, heads, rows, head, row) >= 0
    &&& address(base, heads, rows, head, row) % width::<T>() == 0
    &&& position::<T>(address(base, heads, rows, head, row)) + d <= len
}

/// Indices count as they are converted.
pub(crate) proof fn lemma_counted(i: int)
    requires
        0 <= i <= usize::MAX,
    ensures
        i as isize == counted(i),
{
    if i > isize::MAX {
        lemma_wraps(i as usize);
    }
}

/// Rows lie where their addresses say.
pub(crate) proof fn lemma_row<T>(
    len: nat,
    base: usize,
    strides: Strides2D,
    head: int,
    row: int,
    d: nat,
)
    requires
        0 <= head <= usize::MAX,
        0 <= row <= usize::MAX,
    ensures
        row_at::<T>(base, strides, head, row) == position::<T>(
            address(base as int, strides.head as int, strides.seq as int, head, row),
        ),
        row_ok::<T>(len, base, strides, head, row, d) <==> reachable::<T>(
            len as int,
            base as int,
            strides.head as int,
            strides.seq as int,
            head,
            row,
            d as int,
        ),
{
    lemma_counted(head);
    lemma_counted(row);
}

} // verus!
