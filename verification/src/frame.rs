use vstd::prelude::*;

verus! {

/// Little-endian value of the two bytes at `i`.
pub open spec fn le16(b: Seq<u8>, i: int) -> nat {
    b[i] as nat + 256 * (b[i + 1] as nat)
}

/// Little-endian value of the four bytes at `i`.
pub open spec fn le32(b: Seq<u8>, i: int) -> nat {
    le16(b, i) + 65536 * le16(b, i + 2)
}

/// Little-endian value of the eight bytes at `i`.
pub open spec fn le64(b: Seq<u8>, i: int) -> nat {
    le32(b, i) + 4294967296 * le32(b, i + 4)
}

/// The element count that a bincode encoding (standard configuration, variable-length
/// integers) of a sequence begins with: one byte up to 250, or a marker byte
/// (251, 252, 253) followed by a 2-, 4- or 8-byte little-endian count.
/// `None` where the bytes do not begin with such a count.
pub open spec fn length_prefix(b: Seq<u8>) -> Option<nat> {
    if b.len() == 0 {
        None
    } else if b[0] <= 250 {
        Some(b[0] as nat)
    } else if b[0] == 251 {
        if b.len() >= 3 { Some(le16(b, 1)) } else { None }
    } else if b[0] == 252 {
        if b.len() >= 5 { Some(le32(b, 1)) } else { None }
    } else if b[0] == 253 {
        if b.len() >= 9 { Some(le64(b, 1)) } else { None }
    } else {
        None
    }
}

/// Largest element count for which room may be reserved before decoding:
/// 64 bytes per element stay within `isize::MAX`.
pub open spec fn max_reserved_elements() -> int {
    isize::MAX as int / 64
}

/// The declared element count, if any, is no more than the bytes that follow could
/// hold (every element takes at least one byte) and no more than `max_reserved_elements`.
pub open spec fn length_prefix_in_bounds(b: Seq<u8>) -> bool {
    match length_prefix(b) {
        Some(n) => n <= b.len() && n <= max_reserved_elements(),
        None => true,
    }
}

/// Checks `length_prefix_in_bounds` on `b`.
pub fn prefix_in_bounds(b: &[u8]) -> (r: bool)
    ensures
        r == length_prefix_in_bounds(b@),
        r <==> forall|n: nat|
            length_prefix(b@) == Some(n) ==> n <= b@.len() && 64 * n <= isize::MAX,
{
    let len = b.len();
    if len == 0 {
        return true;
    }
    let tag = b[0];
    let n: u64;
    if tag <= 250 {
        n = tag as u64;
    } else if tag == 251 {
        if len < 3 {
            return true;
        }
        n = b[1] as u64 + 256 * (b[2] as u64);
    } else if tag == 252 {
        if len < 5 {
            return true;
        }
        let lo: u64 = b[1] as u64 + 256 * (b[2] as u64);
        let hi: u64 = b[3] as u64 + 256 * (b[4] as u64);
        n = lo + 65536 * hi;
    } else if tag == 253 {
        if len < 9 {
            return true;
        }
        let a: u64 = b[1] as u64 + 256 * (b[2] as u64);
        let c: u64 = b[3] as u64 + 256 * (b[4] as u64);
        let d: u64 = b[5] as u64 + 256 * (b[6] as u64);
        let e: u64 = b[7] as u64 + 256 * (b[8] as u64);
        let lo: u64 = a + 65536 * c;
        let hi: u64 = d + 65536 * e;
        n = lo + 4294967296 * hi;
    } else {
        return true;
    }
    let limit: u128 = (isize::MAX as u128) / 64;
    (n as u128) <= (len as u128) && (n as u128) <= limit
}

/// A declared count is in bounds exactly when the bytes could hold that many elements and
/// room for them at 64 bytes each stays within `isize::MAX`; so a count of at most 250,
/// written in one byte and no more than the bytes' length, is always in bounds.
pub proof fn law_prefix_in_bounds(b: Seq<u8>)
    ensures
        length_prefix_in_bounds(b) <==> forall|n: nat|
            length_prefix(b) == Some(n) ==> n <= b.len() && 64 * n <= isize::MAX,
        b.len() > 0 && b[0] <= 250 && b[0] <= b.len() ==> length_prefix_in_bounds(b),
{
}

} // verus!
