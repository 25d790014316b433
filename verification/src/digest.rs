//! Label compression: a variable-output-length cryptographic hash rendered
//! as a lowercase hexadecimal string of twice the digest byte length.
use blake2::digest::{Update, VariableOutput};
use blake2::Blake2bVar;
use vstd::prelude::*;
use vstd::utf8::encode_utf8;

verus! {

/// Largest digest byte length the hash primitive supports.
pub const MAX_DIGEST_SIZE: usize = 64;

/// The BLAKE2b digest of `data` at output length `size`, as a pure function
/// of its arguments; its value is fixed only by the hash primitive.
pub uninterp spec fn blake2b_of(data: Seq<u8>, size: nat) -> Seq<u8>;

/// Relies on `blake2::Blake2bVar` (`new`, `update`, `finalize_variable`):
/// a deterministic digest of exactly `size` bytes, computed from the input
/// bytes alone; `new` rejects exactly the sizes above 64 bytes.
#[verifier::external_body]
pub(crate) fn blake2b_var_digest(data: &[u8], size: usize) -> (r: Option<Vec<u8>>)
    ensures
        match r {
            Some(d) => size <= MAX_DIGEST_SIZE && d@ == blake2b_of(data@, size as nat)
                && d@.len() == size,
            None => size > MAX_DIGEST_SIZE,
        },
{
    match Blake2bVar::new(size) {
        Ok(mut hasher) => {
            hasher.update(data);
            let mut buf = vec![0u8; size];
            match hasher.finalize_variable(&mut buf) {
                Ok(()) => Some(buf),
                Err(_) => None,
            }
        },
        Err(_) => None,
    }
}

/// The lowercase hexadecimal digit for a value below 16.
pub open spec fn hex_digit(n: u8) -> char {
    if n == 0 {
        '0'
    } else if n == 1 {
        '1'
    } else if n == 2 {
        '2'
    } else if n == 3 {
        '3'
    } else if n == 4 {
        '4'
    } else if n == 5 {
        '5'
    } else if n == 6 {
        '6'
    } else if n == 7 {
        '7'
    } else if n == 8 {
        '8'
    } else if n == 9 {
        '9'
    } else if n == 10 {
        'a'
    } else if n == 11 {
        'b'
    } else if n == 12 {
        'c'
    } else if n == 13 {
        'd'
    } else if n == 14 {
        'e'
    } else {
        'f'
    }
}

/// Lowercase hexadecimal rendering of a byte string, high nibble first.
pub open spec fn hex_of(b: Seq<u8>) -> Seq<char>
    decreases b.len(),
{
    if b.len() == 0 {
        Seq::empty()
    } else {
        hex_of(b.drop_last()) + seq![hex_digit(b.last() / 16), hex_digit(b.last() % 16)]
    }
}

pub proof fn lemma_hex_of_len(b: Seq<u8>)
    ensures
        hex_of(b).len() == 2 * b.len(),
    decreases b.len(),
{
    if b.len() > 0 {
        lemma_hex_of_len(b.drop_last());
    }
}

/// Relies on `hex::encode`: every byte becomes two lowercase hexadecimal
/// digits, high nibble first.
#[verifier::external_body]
pub(crate) fn hex_encode(data: &Vec<u8>) -> (r: String)
    ensures
        r@ == hex_of(data@),
{
    hex::encode(data)
}

/// The hex digest that label compression assigns to a label string.
pub open spec fn digest_spec(label: Seq<char>, size: nat) -> Seq<char> {
    hex_of(blake2b_of(encode_utf8(label), size))
}

} // verus!
