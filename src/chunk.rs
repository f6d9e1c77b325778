//! Splitting a transfer into device-sized blocks.
use crate::codec::BLOCK_SIZE;
use crate::error::Error;
use vstd::prelude::*;

verus! {

/// The address space ends at 2^32: a transfer of `n` bytes from `base` must not run past it.
pub open spec fn fits(base: u32, n: nat) -> bool {
    base + n <= 0x1_0000_0000
}

/// Number of blocks a transfer of `n` bytes takes.
pub open spec fn chunk_count(n: nat) -> nat {
    (n + 127) / 128
}

/// Length of block `i` of a transfer of `n` bytes: full blocks, then the remainder.
pub open spec fn chunk_len(n: nat, i: nat) -> nat {
    if n >= 128 * i + 128 {
        128
    } else {
        (n - 128 * i) as nat
    }
}

/// Address of block `i` of a transfer starting at `base`.
pub open spec fn chunk_addr(base: u32, i: nat) -> u32 {
    (base + 128 * i) as u32
}

/// The bytes of `data` that block `i` carries.
pub open spec fn block_of(data: Seq<u8>, i: nat) -> Seq<u8> {
    data.subrange((128 * i) as int, (128 * i + chunk_len(data.len(), i)) as int)
}

/// One block of a transfer: where it goes, where it starts in the buffer, how long it is.
#[derive(PartialEq, Eq, Structural, Debug, Clone, Copy)]
pub struct Chunk {
    pub addr: u32,
    pub offset: usize,
    pub len: usize,
}

/// Block `i` of a transfer of `n` bytes from `base`.
pub open spec fn chunk_at(base: u32, n: nat, i: nat) -> Chunk {
    Chunk { addr: chunk_addr(base, i), offset: (128 * i) as usize, len: chunk_len(n, i) as usize }
}

pub proof fn lemma_chunk_bounds(base: u32, n: nat, i: nat)
    requires
        fits(base, n),
        i < chunk_count(n),
    ensures
        128 * i < n,
        1 <= chunk_len(n, i) <= 128,
        128 * i + chunk_len(n, i) <= n,
        base + 128 * i < 0x1_0000_0000,
        i + 1 < chunk_count(n) <==> 128 * i + 128 < n,
        i + 1 == chunk_count(n) ==> 128 * i + chunk_len(n, i) == n,
{
    lemma_chunk_geometry(n, i);
}

/// Where block `i` of a transfer of `n` bytes lies.
pub proof fn lemma_chunk_geometry(n: nat, i: nat)
    requires
        i < chunk_count(n),
    ensures
        128 * i < n,
        1 <= chunk_len(n, i) <= 128,
        128 * i + chunk_len(n, i) <= n,
        i + 1 < chunk_count(n) <==> 128 * i + 128 < n,
        i + 1 == chunk_count(n) ==> 128 * i + chunk_len(n, i) == n,
{
    assert(128 * i < n) by (nonlinear_arith)
        requires
            i < (n + 127) / 128,
    ;
    assert(i + 1 < chunk_count(n) <==> 128 * i + 128 < n) by (nonlinear_arith)
        requires
            i < (n + 127) / 128,
    ;
}

/// Splits a transfer of `n` bytes from `base` into blocks of at most `BLOCK_SIZE`
/// bytes, in increasing address order. Fails with `Address` where the transfer
/// would run past the end of the address space.
pub fn plan_chunks(base: u32, n: usize) -> (r: Result<Vec<Chunk>, Error>)
    ensures
        r is Err <==> !fits(base, n as nat),
        r is Err ==> r == Err::<Vec<Chunk>, Error>(Error::Address),
        r matches Ok(v) ==> {
            &&& v@.len() == chunk_count(n as nat)
            &&& forall|i: int| 0 <= i < v@.len() ==> v@[i] == chunk_at(base, n as nat, i as nat)
        },
{
    if n as u64 > 0x1_0000_0000u64 - base as u64 {
        return Err(Error::Address);
    }
    let mut v: Vec<Chunk> = Vec::new();
    let mut offset: usize = 0;
    while offset < n
        invariant
            fits(base, n as nat),
            offset <= n,
            v@.len() <= chunk_count(n as nat),
            offset < n <==> v@.len() < chunk_count(n as nat),
            v@.len() < chunk_count(n as nat) ==> offset == 128 * v@.len(),
            forall|i: int| 0 <= i < v@.len() ==> v@[i] == chunk_at(base, n as nat, i as nat),
        decreases n - offset,
    {
        let ghost i = v@.len();
        proof { lemma_chunk_bounds(base, n as nat, i); }
        let len: usize = if n - offset >= BLOCK_SIZE {
            BLOCK_SIZE
        } else {
            n - offset
        };
        let c = Chunk { addr: base + offset as u32, offset, len };
        assert(c == chunk_at(base, n as nat, i));
        v.push(c);
        offset = offset + len;
    }
    proof {
        if n == 0 {
            assert(chunk_count(0) == 0);
        }
    }
    Ok(v)
}

} // verus!
