//! Where fetched and computed results are cached: a file named after the
//! work and the first digits of the BLAKE3 hash of what it was done on.
use vstd::prelude::*;

use crate::text::push_char;

verus! {

/// The BLAKE3 hash of the UTF-8 bytes of `text`, in lowercase hexadecimal.
pub uninterp spec fn blake3_hex(text: Seq<char>) -> Seq<char>;

/// `blake3::Hasher` fed the UTF-8 bytes of `text`, finalized, then
/// `Hash::to_hex`: the hash in lowercase hexadecimal, which `to_hex` writes
/// as two digits for each of the 32 bytes of the hash.
#[verifier::external_body]
fn blake3_hex_of(text: &str) -> (r: Vec<char>)
    ensures
        r@ == blake3_hex(text@),
        r@.len() == 64,
{
    let mut hasher = blake3::Hasher::new();
    hasher.update(text.as_bytes());
    hasher.finalize().to_hex().chars().collect()
}

/// The first eight digits of a hash, or all of them when there are fewer:
/// what `String::truncate(8)` leaves of it.
pub open spec fn fingerprint_of(hex: Seq<char>) -> Seq<char> {
    if hex.len() <= 8 {
        hex
    } else {
        hex.take(8)
    }
}

/// The file `dir/name_fingerprint.ext`.
pub open spec fn cache_file_name(dir: Seq<char>, name: Seq<char>, fingerprint: Seq<char>, ext: Seq<char>) -> Seq<
    char,
> {
    dir + "/"@ + name + "_"@ + fingerprint + "."@ + ext
}

/// The fingerprint of a hash written in hexadecimal.
pub fn fingerprint_from_hex(hex: &Vec<char>) -> (r: String)
    ensures
        r@ == fingerprint_of(hex@),
{
    let mut r = String::new();
    let mut k: usize = 0;
    while k < hex.len() && k < 8
        invariant
            k <= hex@.len(),
            k <= 8,
            r@ == hex@.take(k as int),
        decreases 8 - k,
    {
        push_char(&mut r, hex[k]);
        proof {
            assert(hex@.take(k + 1) =~= hex@.take(k as int).push(hex@[k as int]));
        }
        k = k + 1;
    }
    proof {
        if hex@.len() <= 8 {
            assert(hex@.take(k as int) =~= hex@);
        }
    }
    r
}

/// The fingerprint of `text`: the first eight digits of its BLAKE3 hash.
pub fn fingerprint(text: &str) -> (r: String)
    ensures
        r@ == fingerprint_of(blake3_hex(text@)),
{
    let hex = blake3_hex_of(text);
    fingerprint_from_hex(&hex)
}

/// The file `dir/name_fingerprint.ext`.
pub fn cache_file(dir: &str, name: &str, fingerprint: &str, ext: &str) -> (r: String)
    ensures
        r@ == cache_file_name(dir@, name@, fingerprint@, ext@),
{
    let mut r = String::from_str(dir);
    r.append("/");
    r.append(name);
    r.append("_");
    r.append(fingerprint);
    r.append(".");
    r.append(ext);
    r
}

} // verus!
