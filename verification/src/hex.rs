//! Lowercase hexadecimal rendering of identifiers, and the on-disk path an
//! individual object derives from its id: the first byte's two hex digits
//! select a subdirectory, the remaining digits name the file.
use vstd::prelude::*;
use crate::object::ObjectId;

verus! {

/// The lowercase ASCII digit for a nibble.
pub open spec fn hex_digit(n: u8) -> u8 {
    if n < 10 {
        (48 + n) as u8
    } else {
        (87 + n) as u8
    }
}

/// The hex rendering of a byte string, two digits per byte.
pub open spec fn hex_of(s: Seq<u8>) -> Seq<u8> {
    Seq::new(
        2 * s.len(),
        |i: int|
            if i % 2 == 0 {
                hex_digit((s[i / 2] / 16) as u8)
            } else {
                hex_digit((s[i / 2] % 16) as u8)
            },
    )
}

fn hex_digit_byte(n: u8) -> (r: u8)
    requires
        n < 16,
    ensures
        r == hex_digit(n),
{
    if n < 10 {
        48 + n
    } else {
        87 + n
    }
}

pub fn to_hex(v: &Vec<u8>) -> (r: Vec<u8>)
    ensures
        r@ == hex_of(v@),
{
    let mut r: Vec<u8> = Vec::new();
    let mut i: usize = 0;
    while i < v.len()
        invariant
            i <= v.len(),
            r@.len() == 2 * i,
            forall|k: int| 0 <= k < r@.len() ==> r@[k] == hex_of(v@)[k],
        decreases v.len() - i,
    {
        let b = v[i];
        r.push(hex_digit_byte(b / 16));
        r.push(hex_digit_byte(b % 16));
        proof {
            assert((2 * i as int) / 2 == i as int);
            assert((2 * i as int + 1) / 2 == i as int);
            assert(r@[2 * i as int] == hex_of(v@)[2 * i as int]);
            assert(r@[2 * i as int + 1] == hex_of(v@)[2 * i as int + 1]);
        }
        i += 1;
    }
    proof {
        assert(r@ =~= hex_of(v@));
    }
    r
}

/// The path of an individual object file relative to the store root, with a
/// single separator between the subdirectory and the file name.
pub open spec fn loose_rel_path(id: Seq<u8>) -> Seq<u8> {
    hex_of(id.subrange(0, 1)) + seq![47u8] + hex_of(id.subrange(1, id.len() as int))
}

/// Derives the relative file path an object id maps to.
pub fn loose_path(id: &ObjectId) -> (r: Vec<u8>)
    requires
        id.wf(),
    ensures
        r@ == loose_rel_path(id@),
{
    let bytes = id.as_bytes();
    let head = crate::object::subvec(bytes, 0, 1);
    let tail = crate::object::subvec(bytes, 1, bytes.len());
    let mut r = to_hex(&head);
    r.push(47u8);
    let mut t = to_hex(&tail);
    r.append(&mut t);
    proof {
        assert(r@ =~= loose_rel_path(id@));
    }
    r
}

} // verus!
