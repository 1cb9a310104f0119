//! Number types, sizes, strides and positions.
use crate::attention::check::work_check;
use crate::attention::{FlashAttnCfg, KernelCfg, Strides2D};
use crate::ceil::{div_ceil, lemma_ceil_div};
use crate::laws::plain::{counted, holds, lemma_counted, width};
use crate::memory::locate;
use crate::scalar::{
    empty_sum, exceeds, exp, functional, minus, neg_infinity, over, plus, times, zero, Scalar,
};
use vstd::prelude::*;

verus! {

/// What the laws call by the name of an operation is what a call of that operation
/// returns.
pub proof fn operations_return_what_they_are_named<T: Scalar>(a: T, b: T, r: T, above: bool)
    requires
        functional::<T>(),
    ensures
        call_ensures(T::zero, (), r) ==> r == zero::<T>(),
        call_ensures(T::neg_infinity, (), r) ==> r == neg_infinity::<T>(),
        call_ensures(T::empty_sum, (), r) ==> r == empty_sum::<T>(),
        call_ensures(T::plus, (a, b), r) ==> r == plus(a, b),
        call_ensures(T::minus, (a, b), r) ==> r == minus(a, b),
        call_ensures(T::times, (a, b), r) ==> r == times(a, b),
        call_ensures(T::over, (a, b), r) ==> r == over(a, b),
        call_ensures(T::exp, (a,), r) ==> r == exp(a),
        call_ensures(T::exceeds, (a, b), above) ==> above == exceeds(a, b),
{
}

/// A number type is one that the kernels can compute in as soon as each operation
/// returns one result only for the same operands.
pub proof fn single_results_are_enough<T: Scalar>()
    requires
        forall|r: T, s: T|
            #[trigger] call_ensures(T::zero, (), r) && #[trigger] call_ensures(T::zero, (), s)
                ==> r == s,
        forall|r: T, s: T|
            #[trigger] call_ensures(T::neg_infinity, (), r) && #[trigger] call_ensures(
                T::neg_infinity,
                (),
                s,
            ) ==> r == s,
        forall|r: T, s: T|
            #[trigger] call_ensures(T::empty_sum, (), r) && #[trigger] call_ensures(
                T::empty_sum,
                (),
                s,
            ) ==> r == s,
        forall|a: T, b: T, r: T, s: T|
            #[trigger] call_ensures(T::plus, (a, b), r) && #[trigger] call_ensures(
                T::plus,
                (a, b),
                s,
            ) ==> r == s,
        forall|a: T, b: T, r: T, s: T|
            #[trigger] call_ensures(T::minus, (a, b), r) && #[trigger] call_ensures(
                T::minus,
                (a, b),
                s,
            ) ==> r == s,
        forall|a: T, b: T, r: T, s: T|
            #[trigger] call_ensures(T::times, (a, b), r) && #[trigger] call_ensures(
                T::times,
                (a, b),
                s,
            ) ==> r == s,
        forall|a: T, b: T, r: T, s: T|
            #[trigger] call_ensures(T::over, (a, b), r) && #[trigger] call_ensures(
                T::over,
                (a, b),
                s,
            ) ==> r == s,
        forall|a: T, r: T, s: T|
            #[trigger] call_ensures(T::exp, (a,), r) && #[trigger] call_ensures(T::exp, (a,), s)
                ==> r == s,
        forall|a: T, b: T, r: bool, s: bool|
            #[trigger] call_ensures(T::exceeds, (a, b), r) && #[trigger] call_ensures(
                T::exceeds,
                (a, b),
                s,
            ) ==> r == s,
    ensures
        functional::<T>(),
{
}

/// A call of `div_ceil` gives the least number of pieces of size `b` that hold `a`.
pub proof fn pieces_are_the_least_that_hold(a: usize, b: usize, r: usize)
    requires
        b > 0,
    ensures
        call_requires(div_ceil, (a, b)),
        call_ensures(div_ceil, (a, b), r) ==> a <= r * b < a + b,
{
    lemma_ceil_div(a as int, b as int);
}

/// A call of `offset` goes the head stride for each head and the row stride for each
/// row, and can be made whenever both ways and their sum can be held.
pub proof fn offset_goes_by_strides(s: Strides2D, head: usize, row: usize, r: isize)
    ensures
        holds(counted(head as int) * s.head) && holds(counted(row as int) * s.seq) && holds(
            counted(head as int) * s.head + counted(row as int) * s.seq,
        ) ==> call_requires(Strides2D::offset, (&s, head, row)),
        call_ensures(Strides2D::offset, (&s, head, row), r) ==> r == counted(head as int) * s.head
            + counted(row as int) * s.seq,
{
    lemma_counted(head as int);
    lemma_counted(row as int);
}

/// A call of `locate` finds the element at a byte address, counted in elements.
pub proof fn elements_are_located_by_address<T>(
    mem: &[T],
    base: usize,
    off: isize,
    count: usize,
    at: usize,
)
    requires
        width::<T>() > 0,
        base + off >= 0,
        (base + off) % width::<T>() == 0,
    ensures
        (base + off) / width::<T>() + count <= mem@.len() ==> call_requires(
            locate::<T>,
            (mem, base, off, count),
        ),
        call_ensures(locate::<T>, (mem, base, off, count), at) ==> at * width::<T>() == base + off
            && at + count <= mem@.len(),
{
    vstd::arithmetic::div_mod::lemma_fundamental_div_mod(base + off, width::<T>());
    let q = (base + off) / width::<T>();
    assert(width::<T>() * q == q * width::<T>()) by (nonlinear_arith);
}

/// A call of `to_kernel_cfg` shares the query heads out evenly among the key and value
/// heads, keeps head size and page size, and takes as scale what the given function
/// gives for the head size.
pub proof fn kernel_cfg_is_the_configuration<S, F: Fn(usize) -> S>(
    cfg: &FlashAttnCfg,
    scale_of: F,
    r: KernelCfg<S>,
)
    requires
        cfg.kvh > 0,
        cfg.h as int % cfg.kvh as int == 0,
    ensures
        call_requires(scale_of, (cfg.d,)) ==> call_requires(
            FlashAttnCfg::to_kernel_cfg::<S, F>,
            (cfg, scale_of),
        ),
        call_ensures(FlashAttnCfg::to_kernel_cfg::<S, F>, (cfg, scale_of), r) ==> {
            &&& r.g * cfg.kvh == cfg.h
            &&& r.d == cfg.d
            &&& r.bs == cfg.tile_ctx
            &&& call_ensures(scale_of, (cfg.d,), r.scale)
        },
{
    vstd::arithmetic::div_mod::lemma_fundamental_div_mod(cfg.h as int, cfg.kvh as int);
    let g = cfg.h as int / cfg.kvh as int;
    assert(cfg.kvh * g == g * cfg.kvh) by (nonlinear_arith);
}

/// A call of `shared_elements` counts two tiles of query rows, two pages, and the
/// weights of a tile on a page; `work_check` says whether that can be counted.
pub proof fn workspace_has_five_parts(
    cfg: &FlashAttnCfg,
    r: usize,
    bn: usize,
    bs: usize,
    d: usize,
    countable: bool,
)
    ensures
        2 * (cfg.tile_seq * cfg.d) + 2 * (cfg.tile_ctx * cfg.d) + cfg.tile_seq * cfg.tile_ctx
            <= usize::MAX ==> call_requires(FlashAttnCfg::shared_elements, (cfg,)),
        call_ensures(FlashAttnCfg::shared_elements, (cfg,), r) ==> r == 2 * (cfg.tile_seq * cfg.d)
            + 2 * (cfg.tile_ctx * cfg.d) + cfg.tile_seq * cfg.tile_ctx,
        call_requires(work_check, (bn, bs, d)),
        call_ensures(work_check, (bn, bs, d), countable) ==> countable == (2 * (bn * d) + 2 * (bs
            * d) + bn * bs <= usize::MAX),
{
}

} // verus!
