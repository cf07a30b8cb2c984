//! Byte-key helpers for raw storage keys.
use vstd::prelude::*;

verus! {

/// Errors of the key helpers.
#[derive(Clone, Copy, Debug, PartialEq, Eq, Structural)]
pub enum ContractError {
    /// The stored key does not have the expected shape.
    CorruptedData,
}

/// Reads a one-byte key out of the first eight bytes of `data`. An
/// eight-byte window never has the width of a `u8`, so every key read this
/// way is reported as corrupted.
pub fn parse_u8_key(data: &[u8]) -> (r: Result<u8, ContractError>)
    requires
        data@.len() >= 8,
    ensures
        r == Err::<u8, ContractError>(ContractError::CorruptedData),
{
    let window: &[u8] = vstd::slice::slice_subrange(data, 0, 8);
    if window.len() == 1 {
        Ok(window[0])
    } else {
        Err(ContractError::CorruptedData)
    }
}

/// The storage key made of `namespace` followed by `key`.
pub fn concat(namespace: &[u8], key: &[u8]) -> (r: Vec<u8>)
    ensures
        r@ == namespace@ + key@,
{
    let mut k: Vec<u8> = Vec::new();
    extend_bytes(&mut k, namespace);
    extend_bytes(&mut k, key);
    assert(Seq::<u8>::empty() + namespace@ =~= namespace@);
    k
}

fn extend_bytes(v: &mut Vec<u8>, b: &[u8])
    ensures
        final(v)@ == old(v)@ + b@,
{
    let mut i: usize = 0;
    while i < b.len()
        invariant
            0 <= i <= b@.len(),
            v@ == old(v)@ + b@.subrange(0, i as int),
        decreases b@.len() - i,
    {
        v.push(b[i]);
        i = i + 1;
        assert(v@ =~= old(v)@ + b@.subrange(0, i as int));
    }
    assert(b@.subrange(0, b@.len() as int) =~= b@);
}

} // verus!
