//! The octet-string adapter: a value type for generated code that hands an
//! octet string to the codec under a size constraint.
use crate::bits::bits_of;
use crate::buffer::BitBuffer;
use crate::encoding::{
    decode_octet_string, encode_octet_string, octet_length_error, octet_length_fits,
};
use crate::Error;
use asn1rs_model::model::Tag;
use core::marker::PhantomData;
use vstd::prelude::*;

verus! {

#[verifier::external_type_specification]
#[verifier::external_body]
pub struct ExTag(Tag);

/// Relies on asn1rs_model's `Tag::DEFAULT_OCTET_STRING`: the universal tag
/// that ASN.1 gives an octet string.
#[verifier::external_body]
fn default_octet_string_tag() -> Tag {
    Tag::DEFAULT_OCTET_STRING
}

/// The size constraint of an octet string: its bounds, whether it is
/// extensible, and its tag.
pub trait Constraint {
    spec fn spec_min() -> Option<u64>;

    spec fn spec_max() -> Option<u64>;

    /// The smallest size allowed, if any.
    fn min() -> (r: Option<u64>)
        ensures
            r == Self::spec_min(),
    ;

    /// The largest size allowed, if any.
    fn max() -> (r: Option<u64>)
        ensures
            r == Self::spec_max(),
    ;

    /// Whether the constraint is extensible. It is carried as metadata of
    /// the type only: the size range is applied as given, and no extension
    /// marker is encoded for it.
    fn extensible() -> bool;

    /// The ASN.1 tag of the type.
    fn tag() -> Tag;
}

/// The size range that a constraint puts on the length prefix: a range
/// only where both bounds are given.
pub open spec fn size_range(min: Option<u64>, max: Option<u64>) -> Option<(i64, i64)> {
    match (min, max) {
        (Some(lower), Some(upper)) => Some((lower as i64, upper as i64)),
        _ => None,
    }
}

/// Bounds that the codec's signed ranges can hold.
pub open spec fn bounds_fit(min: Option<u64>, max: Option<u64>) -> bool {
    &&& min matches Some(lower) ==> lower <= i64::MAX
    &&& max matches Some(upper) ==> upper <= i64::MAX
}

/// An unconstrained octet string.
#[derive(Default)]
pub struct NoConstraint;

impl Constraint for NoConstraint {
    open spec fn spec_min() -> Option<u64> {
        None
    }

    open spec fn spec_max() -> Option<u64> {
        None
    }

    fn min() -> (r: Option<u64>) {
        None
    }

    fn max() -> (r: Option<u64>) {
        None
    }

    fn extensible() -> bool {
        false
    }

    fn tag() -> Tag {
        default_octet_string_tag()
    }
}

/// An octet string under constraint `C`; it holds no state.
pub struct OctetString<C: Constraint = NoConstraint>(pub PhantomData<C>);

impl<C: Constraint> Default for OctetString<C> {
    fn default() -> (r: Self)
        ensures
            r == OctetString::<C>(PhantomData),
    {
        OctetString(PhantomData)
    }
}

/// The size range of `C` as the codec takes it.
fn length_range<C: Constraint>() -> (r: Option<(i64, i64)>)
    requires
        bounds_fit(C::spec_min(), C::spec_max()),
    ensures
        r == size_range(C::spec_min(), C::spec_max()),
{
    match (C::min(), C::max()) {
        (Some(lower), Some(upper)) => Some((lower as i64, upper as i64)),
        _ => None,
    }
}

impl<C: Constraint> OctetString<C> {
    /// Writes `value` as an octet string under `C`'s size range.
    pub fn write_value(writer: &mut BitBuffer, value: &Vec<u8>) -> (r: Result<(), Error>)
        requires
            old(writer).wf(),
            bounds_fit(C::spec_min(), C::spec_max()),
            old(writer).has_room(64 + 8 * value@.len() as int),
        ensures
            final(writer).wf(),
            octet_length_fits(value@.len(), size_range(C::spec_min(), C::spec_max())) ==> r is Ok
                && final(writer)@ == old(writer)@.append(
                encode_octet_string(value@, size_range(C::spec_min(), C::spec_max())),
            ),
            !octet_length_fits(value@.len(), size_range(C::spec_min(), C::spec_max())) ==> final(writer)@
                == old(writer)@ && match size_range(C::spec_min(), C::spec_max()) {
                Some((lower, upper)) => r == Err::<(), Error>(
                    Error::ValueNotInRange(value@.len() as i64, lower, upper),
                ),
                None => r matches Err(Error::UnsupportedOperation(_)),
            },
    {
        let range = length_range::<C>();
        writer.write_octet_string(value.as_slice(), range)
    }

    /// Reads an octet string under `C`'s size range.
    pub fn read_value(reader: &mut BitBuffer) -> (r: Result<Vec<u8>, Error>)
        requires
            old(reader).wf(),
            bounds_fit(C::spec_min(), C::spec_max()),
            size_range(C::spec_min(), C::spec_max()) matches Some((lower, upper)) ==> lower
                <= upper,
        ensures
            final(reader).wf(),
            decode_octet_string(old(reader)@.unread(), size_range(C::spec_min(), C::spec_max())) matches Some(
                (l, n),
            ) ==> (r matches Ok(v) && v@.len() == l && bits_of(v@, 0, (8 * l) as int) == old(
                reader,
            )@.unread().subrange(n - 8 * l, n as int)) && final(reader)@ == old(reader)@.skip(n),
            decode_octet_string(old(reader)@.unread(), size_range(C::spec_min(), C::spec_max())) is None
                ==> (r is Err) && final(reader)@ == old(reader)@,
            r matches Err(e) ==> octet_length_error(
                old(reader)@.unread(),
                size_range(C::spec_min(), C::spec_max()),
                e,
            ),
    {
        let range = length_range::<C>();
        reader.read_octet_string(range)
    }
}

} // verus!
