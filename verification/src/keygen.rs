//! Auth keys: `dvion-` followed by 32 random characters from `0-9a-z`.
use crate::primitives;
use vstd::prelude::*;

verus! {

/// The number of random characters in a key.
pub const KEY_BODY_LEN: usize = 32;

/// The size of the key alphabet (`0-9` then `a-z`).
pub const KEY_ALPHABET_LEN: usize = 36;

/// The key character for alphabet index `i`: a digit below 10, else a lower-case letter.
pub open spec fn key_char(i: int) -> char {
    if i < 10 {
        (48 + i) as char
    } else {
        (87 + i) as char
    }
}

/// The key made from a sequence of alphabet indices.
pub open spec fn key_text(indices: Seq<usize>) -> Seq<char> {
    seq!['d', 'v', 'i', 'o', 'n', '-'] + indices.map_values(|i: usize| key_char(i as int))
}

/// The key character for alphabet index `i`.
pub fn key_char_of(i: usize) -> (c: char)
    requires
        i < KEY_ALPHABET_LEN,
    ensures
        c == key_char(i as int),
{
    if i < 10 {
        (48u8 + i as u8) as char
    } else {
        (87u8 + i as u8) as char
    }
}

/// The key spelled by the given alphabet indices.
pub fn key_from_indices(indices: &[usize]) -> (k: String)
    requires
        forall|j: int| 0 <= j < indices@.len() ==> #[trigger] indices@[j] < KEY_ALPHABET_LEN,
    ensures
        k@ == key_text(indices@),
{
    let mut k = String::new();
    k.push('d');
    k.push('v');
    k.push('i');
    k.push('o');
    k.push('n');
    k.push('-');
    let mut j: usize = 0;
    while j < indices.len()
        invariant
            j <= indices@.len(),
            forall|m: int| 0 <= m < indices@.len() ==> #[trigger] indices@[m] < KEY_ALPHABET_LEN,
            k@ == key_text(indices@.take(j as int)),
        decreases indices@.len() - j,
    {
        let c = key_char_of(indices[j]);
        k.push(c);
        assert(indices@.take(j + 1) =~= indices@.take(j as int).push(indices@[j as int]));
        assert(key_text(indices@.take(j + 1)) =~= key_text(indices@.take(j as int)).push(c));
        j = j + 1;
    }
    assert(indices@.take(indices@.len() as int) =~= indices@);
    k
}

/// Generate a new random auth key.
pub fn generate_key() -> (k: String)
    ensures
        exists|indices: Seq<usize>|
            #![trigger key_text(indices)]
            indices.len() == KEY_BODY_LEN && (forall|j: int|
                0 <= j < indices.len() ==> #[trigger] indices[j] < KEY_ALPHABET_LEN) && k@ == key_text(
                indices,
            ),
{
    let mut indices: Vec<usize> = Vec::new();
    let mut n: usize = 0;
    while n < KEY_BODY_LEN
        invariant
            n <= KEY_BODY_LEN,
            indices@.len() == n,
            forall|j: int| 0 <= j < indices@.len() ==> #[trigger] indices@[j] < KEY_ALPHABET_LEN,
        decreases KEY_BODY_LEN - n,
    {
        indices.push(primitives::random_below(KEY_ALPHABET_LEN));
        n = n + 1;
    }
    let k = key_from_indices(indices.as_slice());
    assert(k@ == key_text(indices@));
    k
}

} // verus!
