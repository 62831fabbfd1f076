use vstd::prelude::*;

verus! {

/// The SHA-256 digest of `data`, as `bitcoin_hashes::sha256` computes it.
pub uninterp spec fn sha256_digest(data: Seq<u8>) -> Seq<u8>;

/// The double SHA-256 digest of `data`, as `bitcoin_hashes::sha256d`
/// computes it.
pub uninterp spec fn sha256d_digest(data: Seq<u8>) -> Seq<u8>;

/// `bitcoin_hashes::sha256::Hash::hash`, with the digest copied out of its
/// array. The digest depends on the bytes alone and is 32 bytes long;
/// nothing else is claimed of it.
#[verifier::external_body]
pub(crate) fn sha256(data: &[u8]) -> (digest: Vec<u8>)
    ensures
        digest@ == sha256_digest(data@),
        digest@.len() == 32,
{
    let digest: bitcoin_hashes::sha256::Hash = bitcoin_hashes::Hash::hash(data);
    bitcoin_hashes::Hash::to_byte_array(digest).to_vec()
}

/// `bitcoin_hashes::sha256d::Hash::hash`, with the digest copied out of its
/// array. The digest depends on the bytes alone and is 32 bytes long;
/// nothing else is claimed of it.
#[verifier::external_body]
pub(crate) fn sha256d(data: &[u8]) -> (digest: Vec<u8>)
    ensures
        digest@ == sha256d_digest(data@),
        digest@.len() == 32,
{
    let digest: bitcoin_hashes::sha256d::Hash = bitcoin_hashes::Hash::hash(data);
    bitcoin_hashes::Hash::to_byte_array(digest).to_vec()
}

/// A copy of `bytes`.
pub fn copy_bytes(bytes: &Vec<u8>) -> (copy: Vec<u8>)
    ensures
        copy@ == bytes@,
{
    vstd::slice::slice_to_vec(bytes.as_slice())
}

/// Whether two byte strings are the same.
pub fn bytes_equal(a: &[u8], b: &[u8]) -> (same: bool)
    ensures
        same == (a@ == b@),
{
    if a.len() != b.len() {
        return false;
    }
    let mut i: usize = 0;
    while i < a.len()
        invariant
            i <= a@.len(),
            a@.len() == b@.len(),
            forall|j: int| 0 <= j < i ==> a@[j] == b@[j],
        decreases a@.len() - i,
    {
        if a[i] != b[i] {
            return false;
        }
        i = i + 1;
    }
    assert(a@ =~= b@);
    true
}

} // verus!
