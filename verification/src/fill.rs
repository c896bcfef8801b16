//! The fill data that the write buffer starts with, and the one source of
//! randomness of the library.

use vstd::prelude::*;

verus! {

/// `Rng::gen_range` of the crate `rand`, on the generator that `rand::thread_rng`
/// hands out: a number of `[low, high)`, drawn anew at each call. The call panics
/// unless `low < high`.
#[verifier::external_body]
pub(crate) fn gen_range(low: u64, high: u64) -> (drawn: u64)
    requires
        low < high,
    ensures
        low <= drawn < high,
{
    rand::Rng::gen_range(&mut rand::thread_rng(), low, high)
}

/// The kind of data that the write buffer is filled with.
#[derive(Debug, Clone, Copy, PartialEq, Eq, Structural)]
pub enum DataType {
    /// Random bytes, none of them zero.
    Random,
    /// Zero bytes.
    Zero,
}

/// A buffer of `n` random bytes, none of them zero. Each byte is drawn uniformly
/// from `1..=255`.
pub fn random_bytes(n: usize) -> (buffer: Vec<u8>)
    ensures
        buffer@.len() == n,
        forall|i: int| 0 <= i < n ==> buffer@[i] != 0,
{
    let mut buffer: Vec<u8> = Vec::new();
    let mut i: usize = 0;
    while i < n
        invariant
            i <= n,
            buffer@.len() == i,
            forall|j: int| 0 <= j < i ==> buffer@[j] != 0,
        decreases n - i,
    {
        let drawn = gen_range(1, 256);
        buffer.push(drawn as u8);
        i = i + 1;
    }
    buffer
}

/// A buffer of `n` zero bytes.
pub fn zero(n: usize) -> (buffer: Vec<u8>)
    ensures
        buffer@ == Seq::new(n as nat, |i: int| 0u8),
{
    let mut buffer: Vec<u8> = Vec::new();
    let mut i: usize = 0;
    while i < n
        invariant
            i <= n,
            buffer@ == Seq::new(i as nat, |j: int| 0u8),
        decreases n - i,
    {
        buffer.push(0u8);
        i = i + 1;
        assert(buffer@ =~= Seq::new(i as nat, |j: int| 0u8));
    }
    buffer
}

/// The write buffer at the start of a run: `n` bytes of the kind asked for.
pub fn initial_buffer(kind: DataType, n: usize) -> (buffer: Vec<u8>)
    ensures
        buffer@.len() == n,
        kind == DataType::Zero ==> buffer@ == Seq::new(n as nat, |i: int| 0u8),
        kind == DataType::Random ==> forall|i: int| 0 <= i < n ==> buffer@[i] != 0,
{
    match kind {
        DataType::Random => random_bytes(n),
        DataType::Zero => zero(n),
    }
}

} // verus!
