//! Fixed-width identities of functions and workers.

use vstd::prelude::*;
use vstd::string::StringSliceAdditionalSpecFns;

verus! {

/// An identity: exactly 64 bytes, compared byte by byte.
pub type StaticName = [u8; 64];

/// The identity that a byte string stands for: the bytes themselves, followed
/// by zero bytes up to the full width.
pub open spec fn padded(bytes: Seq<u8>) -> Seq<u8> {
    Seq::new(
        64,
        |i: int|
            if i < bytes.len() {
                bytes[i]
            } else {
                0u8
            },
    )
}

/// Builds the identity of a name of at most 64 bytes.
pub fn static_name_from_str(s: &str) -> (name: StaticName)
    requires
        s.spec_bytes().len() <= 64,
    ensures
        name@ == padded(s.spec_bytes()),
{
    let bytes = s.as_bytes();
    let mut name: StaticName = [0u8; 64];
    let mut i: usize = 0;
    while i < bytes.len()
        invariant
            bytes@ == s.spec_bytes(),
            bytes@.len() <= 64,
            i <= bytes@.len(),
            forall|j: int| 0 <= j < i ==> name@[j] == bytes@[j],
            forall|j: int| i <= j < 64 ==> name@[j] == 0u8,
        decreases bytes@.len() - i,
    {
        name[i] = bytes[i];
        i = i + 1;
    }
    assert(name@ =~= padded(s.spec_bytes()));
    name
}

/// Builds the identity of a name, unless the name is longer than 64 bytes.
pub fn checked_static_name(s: &str) -> (name: Option<StaticName>)
    ensures
        match name {
            Some(name) => s.spec_bytes().len() <= 64 && name@ == padded(s.spec_bytes()),
            None => s.spec_bytes().len() > 64,
        },
{
    if s.as_bytes().len() <= 64 {
        Some(static_name_from_str(s))
    } else {
        None
    }
}

/// Whether two identities are the same, byte for byte.
pub fn same_name(a: &StaticName, b: &StaticName) -> (same: bool)
    ensures
        same == (*a == *b),
{
    let mut i: usize = 0;
    while i < 64
        invariant
            i <= 64,
            forall|j: int| 0 <= j < i ==> a@[j] == b@[j],
        decreases 64 - i,
    {
        if a[i] != b[i] {
            return false;
        }
        i = i + 1;
    }
    assert(*a =~= *b);
    true
}

} // verus!
