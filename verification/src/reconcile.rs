//! The stereospecific identities: of the percentages of a fatty acid at
//! sn-1,3, at sn-2 and at sn-1,2,3 each follows from the two others, the
//! percentage at sn-1,2,3 being the mean over the three positions and the
//! two primary positions sharing that at sn-1,3.

use crate::value::{Arithmetic, Operation, Value, arithmetic_of};
use vstd::prelude::*;

verus! {

/// The bits of the number two.
pub const TWO: u64 = 0x4000_0000_0000_0000;

/// The bits of the number three.
pub const THREE: u64 = 0x4008_0000_0000_0000;

/// `sn123` came by way of `double` and `sum`: `double` is twice `sn13`, `sum`
/// is `double` plus `sn2`, and `sn123` is `sum` divided by three.
pub open spec fn sn123_via(
    does: Arithmetic,
    sn13: Value,
    sn2: Value,
    double: Value,
    sum: Value,
    sn123: Value,
) -> bool {
    &&& does(Operation::Times, Value { bits: TWO }, sn13, double)
    &&& does(Operation::Plus, double, sn2, sum)
    &&& does(Operation::Divide, sum, Value { bits: THREE }, sn123)
}

/// `sn123` is `(2 * sn13 + sn2) / 3`.
pub open spec fn implied_sn123(does: Arithmetic, sn13: Value, sn2: Value, sn123: Value) -> bool {
    exists|double: Value, sum: Value| sn123_via(does, sn13, sn2, double, sum, sn123)
}

/// `sn13` came by way of `triple` and `rest`: `triple` is three times
/// `sn123`, `rest` is `triple` minus `sn2`, and `sn13` is `rest` divided by
/// two.
pub open spec fn sn13_via(
    does: Arithmetic,
    sn123: Value,
    sn2: Value,
    triple: Value,
    rest: Value,
    sn13: Value,
) -> bool {
    &&& does(Operation::Times, Value { bits: THREE }, sn123, triple)
    &&& does(Operation::Minus, triple, sn2, rest)
    &&& does(Operation::Divide, rest, Value { bits: TWO }, sn13)
}

/// `sn13` is `(3 * sn123 - sn2) / 2`.
pub open spec fn implied_sn13(does: Arithmetic, sn123: Value, sn2: Value, sn13: Value) -> bool {
    exists|triple: Value, rest: Value| sn13_via(does, sn123, sn2, triple, rest, sn13)
}

/// `sn2` came by way of `triple` and `double`: `triple` is three times
/// `sn123`, `double` is twice `sn13`, and `sn2` is `triple` minus `double`.
pub open spec fn sn2_via(
    does: Arithmetic,
    sn123: Value,
    sn13: Value,
    triple: Value,
    double: Value,
    sn2: Value,
) -> bool {
    &&& does(Operation::Times, Value { bits: THREE }, sn123, triple)
    &&& does(Operation::Times, Value { bits: TWO }, sn13, double)
    &&& does(Operation::Minus, triple, double, sn2)
}

/// `sn2` is `3 * sn123 - 2 * sn13`.
pub open spec fn implied_sn2(does: Arithmetic, sn123: Value, sn13: Value, sn2: Value) -> bool {
    exists|triple: Value, double: Value| sn2_via(does, sn123, sn13, triple, double, sn2)
}

/// The percentage at sn-1,2,3 that those at sn-1,3 and at sn-2 imply.
pub fn reconcile_sn123<A: Fn(Operation, Value, Value) -> Value>(
    sn13: Value,
    sn2: Value,
    arithmetic: A,
) -> (sn123: Value)
    requires
        forall|operation: Operation, a: Value, b: Value| arithmetic.requires((operation, a, b)),
    ensures
        implied_sn123(arithmetic_of(arithmetic), sn13, sn2, sn123),
{
    let double = arithmetic(Operation::Times, Value::from_bits(TWO), sn13);
    let sum = arithmetic(Operation::Plus, double, sn2);
    let sn123 = arithmetic(Operation::Divide, sum, Value::from_bits(THREE));
    assert(sn123_via(arithmetic_of(arithmetic), sn13, sn2, double, sum, sn123));
    sn123
}

/// The percentage at sn-1,3 that those at sn-1,2,3 and at sn-2 imply.
pub fn reconcile_sn13<A: Fn(Operation, Value, Value) -> Value>(
    sn123: Value,
    sn2: Value,
    arithmetic: A,
) -> (sn13: Value)
    requires
        forall|operation: Operation, a: Value, b: Value| arithmetic.requires((operation, a, b)),
    ensures
        implied_sn13(arithmetic_of(arithmetic), sn123, sn2, sn13),
{
    let triple = arithmetic(Operation::Times, Value::from_bits(THREE), sn123);
    let rest = arithmetic(Operation::Minus, triple, sn2);
    let sn13 = arithmetic(Operation::Divide, rest, Value::from_bits(TWO));
    assert(sn13_via(arithmetic_of(arithmetic), sn123, sn2, triple, rest, sn13));
    sn13
}

/// The percentage at sn-2 that those at sn-1,2,3 and at sn-1,3 imply.
pub fn reconcile_sn2<A: Fn(Operation, Value, Value) -> Value>(
    sn123: Value,
    sn13: Value,
    arithmetic: A,
) -> (sn2: Value)
    requires
        forall|operation: Operation, a: Value, b: Value| arithmetic.requires((operation, a, b)),
    ensures
        implied_sn2(arithmetic_of(arithmetic), sn123, sn13, sn2),
{
    let triple = arithmetic(Operation::Times, Value::from_bits(THREE), sn123);
    let double = arithmetic(Operation::Times, Value::from_bits(TWO), sn13);
    let sn2 = arithmetic(Operation::Minus, triple, double);
    assert(sn2_via(arithmetic_of(arithmetic), sn123, sn13, triple, double, sn2));
    sn2
}

/// The three percentages that the percentages of a fatty acid imply, in the
/// order of a profile: that at sn-1,3 from those at sn-1,2,3 and sn-2, that
/// at sn-2 from those at sn-1,2,3 and sn-1,3, and that at sn-1,2,3 from
/// those at sn-1,3 and sn-2.
pub fn implied<A: Fn(Operation, Value, Value) -> Value>(
    sn13: Value,
    sn2: Value,
    sn123: Value,
    arithmetic: A,
) -> (r: [Value; 3])
    requires
        forall|operation: Operation, a: Value, b: Value| arithmetic.requires((operation, a, b)),
    ensures
        implied_sn13(arithmetic_of(arithmetic), sn123, sn2, r@[0]),
        implied_sn2(arithmetic_of(arithmetic), sn123, sn13, r@[1]),
        implied_sn123(arithmetic_of(arithmetic), sn13, sn2, r@[2]),
{
    let by_others_sn13 = reconcile_sn13(sn123, sn2, &arithmetic);
    let by_others_sn2 = reconcile_sn2(sn123, sn13, &arithmetic);
    let by_others_sn123 = reconcile_sn123(sn13, sn2, &arithmetic);
    proof {
        assert(arithmetic_of(&arithmetic) =~= arithmetic_of(arithmetic));
    }
    [by_others_sn13, by_others_sn2, by_others_sn123]
}

} // verus!
