//! The number types that attention can be computed in.
use vstd::prelude::*;

verus! {

/// The element type of a tensor.
#[derive(Clone, Copy, Debug, PartialEq, Eq, Structural)]
pub enum DataType {
    F32,
    F64,
    /// Another type, told apart by its code.
    Other(u64),
}

/// A number type of the kernels.
#[derive(Clone, Copy, Debug, PartialEq, Eq, Structural)]
pub enum Precision {
    Single,
    Double,
}

/// Why a batch has no number type.
#[derive(Clone, Copy, Debug, PartialEq, Eq, Structural)]
pub enum PrecisionError {
    /// There are no tensors, or their types differ.
    NotDistinct,
    /// The tensors' type is none that the kernels compute in.
    Unsupported(DataType),
}

/// All tensors have the type `dt`, and there are tensors.
pub open spec fn all_of(dts: Seq<DataType>, dt: DataType) -> bool {
    dts.len() > 0 && forall|i: int| 0 <= i < dts.len() ==> #[trigger] dts[i] == dt
}

/// `r` is the one type that all tensors have, if there is one.
pub open spec fn common(dts: Seq<DataType>, r: Option<DataType>) -> bool {
    forall|dt: DataType| #[trigger] all_of(dts, dt) <==> r == Some(dt)
}

/// The one type that all tensors have, if there is one.
pub fn distinct(dts: &[DataType]) -> (r: Option<DataType>)
    ensures
        r matches Some(dt) ==> all_of(dts@, dt),
        r is None ==> forall|dt: DataType| !all_of(dts@, dt),
        common(dts@, r),
{
    if dts.len() == 0 {
        return None;
    }
    let first: DataType = dts[0];
    for i in 0..dts.len()
        invariant
            dts@.len() > 0,
            first == dts@[0],
            forall|t: int| 0 <= t < i ==> #[trigger] dts@[t] == first,
    {
        let dt: DataType = dts[i];
        if dt != first {
            assert forall|x: DataType| !all_of(dts@, x) by {
                if all_of(dts@, x) {
                    assert(dts@[0] == x);
                    assert(dts@[i as int] == x);
                }
            }
            return None;
        }
    }
    assert forall|x: DataType| #[trigger] all_of(dts@, x) implies x == first by {
        assert(dts@[0] == x);
    }
    Some(first)
}

/// The number type that a batch of tensors of the types `dts` is computed in.
pub fn precision_of(dts: &[DataType]) -> (r: Result<Precision, PrecisionError>)
    ensures
        r == Ok::<Precision, PrecisionError>(Precision::Single) <==> all_of(dts@, DataType::F32),
        r == Ok::<Precision, PrecisionError>(Precision::Double) <==> all_of(dts@, DataType::F64),
        r == Err::<Precision, PrecisionError>(PrecisionError::NotDistinct) <==> forall|dt: DataType|
            !all_of(dts@, dt),
        forall|dt: DataType|
            r == Err::<Precision, PrecisionError>(PrecisionError::Unsupported(dt)) <==> {
                &&& #[trigger] all_of(dts@, dt)
                &&& dt is Other
            },
{
    match distinct(dts) {
        None => Err(PrecisionError::NotDistinct),
        Some(dt) => {
            assert(dts@[0] == dt);
            assert forall|x: DataType| #[trigger] all_of(dts@, x) implies x == dt by {
                assert(dts@[0] == x);
            }
            match dt {
                DataType::F32 => Ok(Precision::Single),
                DataType::F64 => Ok(Precision::Double),
                other => Err(PrecisionError::Unsupported(other)),
            }
        },
    }
}

impl Precision {
    /// The name of the type in device code.
    pub fn device_name(&self) -> (r: &'static str)
        ensures
            *self == Precision::Single ==> r@ == "float"@,
            *self == Precision::Double ==> r@ == "double"@,
    {
        match self {
            Precision::Single => "float",
            Precision::Double => "double",
        }
    }
}

} // verus!
