use vstd::prelude::*;

verus! {

/// Value of a byte string read as a big-endian unsigned number.
pub open spec fn be_value(bytes: Seq<u8>) -> nat
    decreases bytes.len(),
{
    if bytes.len() == 0 {
        0
    } else {
        be_value(bytes.drop_last()) * 256 + bytes.last() as nat
    }
}

/// The lower-case base-36 digit that stands for `d` (`d < 36`).
pub open spec fn base36_char(d: nat) -> char {
    if d < 10 {
        (48 + d) as char
    } else {
        (87 + d) as char
    }
}

/// Lower-case base-36 numeral of `n`, without leading zeros (`"0"` for zero).
pub open spec fn base36_text(n: nat) -> Seq<char>
    decreases n,
{
    if n < 36 {
        seq![base36_char(n)]
    } else {
        base36_text(n / 36).push(base36_char(n % 36))
    }
}

/// Value of a base-36 digit, either case; `None` for any other character.
pub open spec fn digit_value(c: char) -> Option<nat> {
    let u = c as int;
    if 48 <= u <= 57 {
        Some((u - 48) as nat)
    } else if 97 <= u <= 122 {
        Some((u - 87) as nat)
    } else if 65 <= u <= 90 {
        Some((u - 55) as nat)
    } else {
        None
    }
}

/// A character that may stand in the body of a base-36 numeral: a digit or `_`.
pub open spec fn numeral_char(c: char) -> bool {
    c == '_' || digit_value(c) is Some
}

/// Value of a base-36 numeral whose characters are digits or `_` (separators are skipped).
pub open spec fn numeral_value(t: Seq<char>) -> nat
    decreases t.len(),
{
    if t.len() == 0 {
        0
    } else {
        match digit_value(t.last()) {
            Some(d) => numeral_value(t.drop_last()) * 36 + d,
            None => numeral_value(t.drop_last()),
        }
    }
}

/// The numeral once one leading `+` is removed.
pub open spec fn unsigned_body(s: Seq<char>) -> Seq<char> {
    if s.len() > 0 && s[0] == '+' {
        s.drop_first()
    } else {
        s
    }
}

/// 2^256: the first value that does not fit in 32 bytes.
pub open spec fn two_pow_256() -> nat {
    0x1_0000_0000_0000_0000_0000_0000_0000_0000_0000_0000_0000_0000_0000_0000_0000_0000nat
}

/// A string that names a transaction id: an optional `+`, then a non-empty
/// base-36 numeral that does not start with `_`, whose value fits in 32 bytes.
pub open spec fn accepts_txid(s: Seq<char>) -> bool {
    let t = unsigned_body(s);
    &&& t.len() > 0
    &&& t[0] != '_'
    &&& forall|i: int| 0 <= i < t.len() ==> numeral_char(#[trigger] t[i])
    &&& numeral_value(t) < two_pow_256()
}

} // verus!
