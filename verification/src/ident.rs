use vstd::prelude::*;

verus! {

/// The bits that every version 4 identifier carries: version `4` and the
/// RFC 9562 variant.
pub const V4_MARK: u128 = 0x0000_0000_0000_4000_8000_0000_0000_0000u128;

/// The bit positions of the version and of the variant.
pub const V4_MASK: u128 = 0x0000_0000_0000_f000_c000_0000_0000_0000u128;

/// Identifier of a node, a sub-graph or a function: the 128 bits of a UUID.
///
/// The all-zero identifier is the nil identifier; no entity of a valid graph
/// carries it.
#[derive(Clone, Copy, PartialEq, Eq, Debug, Hash, Structural)]
pub struct Id {
    pub value: u128,
}

/// Trusted: `uuid::Uuid::nil`, read back through `Uuid::as_u128`. The nil UUID
/// is sixteen zero bytes, so its big-endian value is zero.
#[verifier::external_body]
fn nil_bits() -> (bits: u128)
    ensures
        bits == 0,
{
    uuid::Uuid::nil().as_u128()
}

/// Trusted: `uuid::Uuid::new_v4`, read back through `Uuid::as_u128`. The
/// random bits are not described; the crate overwrites the version with `4`
/// and the variant with `10`, and only that is claimed. Where the system
/// hands out no random bytes the call does not return: it panics, on no
/// input in particular, so no precondition can leave that out.
#[verifier::external_body]
fn random_bits() -> (bits: u128)
    ensures
        bits & V4_MASK == V4_MARK,
{
    uuid::Uuid::new_v4().as_u128()
}

impl Id {
    pub open spec fn is_nil_spec(&self) -> bool {
        self.value == 0
    }

    /// The nil identifier.
    pub fn nil() -> (id: Id)
        ensures
            id.value == 0,
            id.is_nil_spec(),
    {
        Id { value: nil_bits() }
    }

    /// A fresh random identifier. It is never nil.
    pub fn new_v4() -> (id: Id)
        ensures
            !id.is_nil_spec(),
            id.value & V4_MASK == V4_MARK,
    {
        let bits = random_bits();
        assert(bits & 0x0000_0000_0000_f000_c000_0000_0000_0000u128
            == 0x0000_0000_0000_4000_8000_0000_0000_0000u128 ==> bits != 0) by (bit_vector);
        Id { value: bits }
    }

    pub fn from_u128(value: u128) -> (id: Id)
        ensures
            id.value == value,
    {
        Id { value }
    }

    pub fn as_u128(&self) -> (value: u128)
        ensures
            value == self.value,
    {
        self.value
    }

    #[verifier::when_used_as_spec(is_nil_spec)]
    pub fn is_nil(&self) -> (nil: bool)
        ensures
            nil == self.is_nil_spec(),
    {
        self.value == 0
    }
}

} // verus!
