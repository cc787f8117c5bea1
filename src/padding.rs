use vstd::prelude::*;
use vstd::slice::slice_to_vec;
use vstd::arithmetic::div_mod::lemma_fundamental_div_mod;
use chacha20poly1305::aead::rand_core::RngCore;
use chacha20poly1305::aead::OsRng;
use crate::error::StoreError;

verus! {

/// Plaintexts are padded to a multiple of this many bytes.
pub const BLOCK_SIZE: usize = 64;

/// The byte that marks where the content of a padded buffer ends (`<`).
pub const SENTINEL: u8 = 60;

/// rand_core's error type, returned by `OsRng::try_fill_bytes`; carried only.
#[verifier::external_type_specification]
#[verifier::external_body]
pub struct ExRandError(chacha20poly1305::aead::rand_core::Error);

/// Length of the padded form of `len` bytes: the next multiple of the block
/// size strictly above `len`, or `len` itself when it is already a multiple.
pub open spec fn padded_len(len: nat) -> nat {
    if len % 64 == 0 {
        len
    } else {
        ((len / 64 + 1) * 64) as nat
    }
}

/// `r` is a padding of `p`: `p` itself when its length is a multiple of the
/// block size; else `p`, the sentinel, then any filler up to the next multiple.
pub open spec fn is_padding_of(r: Seq<u8>, p: Seq<u8>) -> bool {
    if p.len() % 64 == 0 {
        r == p
    } else {
        &&& r.len() == padded_len(p.len())
        &&& r.subrange(0, p.len() as int) == p
        &&& r[p.len() as int] == SENTINEL
    }
}

/// Where the search for the sentinel begins: the start of the last block.
pub open spec fn scan_start(len: nat) -> nat {
    if len >= 64 {
        (len - 64) as nat
    } else {
        0
    }
}

/// Index at which unpadding cuts, searching from `i`: the first sentinel
/// before the last byte, else the last byte's index (0 for an empty buffer).
pub open spec fn cut_from(s: Seq<u8>, i: nat) -> nat
    decreases s.len() - i,
{
    if i + 1 >= s.len() {
        if s.len() == 0 {
            0
        } else {
            (s.len() - 1) as nat
        }
    } else if s[i as int] == SENTINEL {
        i
    } else {
        cut_from(s, i + 1)
    }
}

/// The content of a padded buffer.
pub open spec fn unpadded(s: Seq<u8>) -> Seq<u8> {
    s.subrange(0, cut_from(s, scan_start(s.len())) as int)
}

/// `p` comes back unchanged from padding: its length is not a multiple of
/// the block size, and its last, partial block holds no sentinel.
pub open spec fn unambiguous(p: Seq<u8>) -> bool {
    &&& p.len() % 64 != 0
    &&& forall|i: int| (p.len() / 64) * 64 <= i < p.len() ==> #[trigger] p[i] != SENTINEL
}

/// Relies on rand_core's `OsRng::try_fill_bytes`: on success the buffer of
/// `n` bytes has been filled from the operating system's random source.
#[verifier::external_body]
fn os_random_bytes(n: usize) -> (r: Result<Vec<u8>, chacha20poly1305::aead::rand_core::Error>)
    ensures
        r matches Ok(v) ==> v@.len() == n,
{
    let mut buf = vec![0u8; n];
    match OsRng.try_fill_bytes(&mut buf) {
        Ok(()) => Ok(buf),
        Err(e) => Err(e),
    }
}

/// `prefix` followed by the bytes drawn from the random source, or the
/// draw's failure as `RandomSourceError`.
pub fn extend_with_draw(
    prefix: &[u8],
    target_length: usize,
    drawn: Result<Vec<u8>, chacha20poly1305::aead::rand_core::Error>,
) -> (r: Result<Vec<u8>, StoreError>)
    requires
        prefix@.len() < target_length,
        drawn matches Ok(d) ==> d@.len() == target_length - prefix@.len(),
    ensures
        match drawn {
            Ok(d) => r matches Ok(v) && v@ == prefix@ + d@,
            Err(_) => r == Err::<Vec<u8>, StoreError>(StoreError::RandomSourceError),
        },
{
    match drawn {
        Ok(mut extra) => {
            let mut full = slice_to_vec(prefix);
            full.append(&mut extra);
            Ok(full)
        },
        Err(_) => Err(StoreError::RandomSourceError),
    }
}

/// `prefix` cut or extended to `target_length` bytes; the extension is random.
pub fn fill_random_bytes(prefix: &[u8], target_length: usize) -> (r: Result<Vec<u8>, StoreError>)
    ensures
        match r {
            Ok(v) => {
                &&& v@.len() == target_length
                &&& prefix@.len() >= target_length ==> v@ == prefix@.subrange(0, target_length as int)
                &&& prefix@.len() < target_length ==> v@.subrange(0, prefix@.len() as int) == prefix@
            },
            Err(e) => e == StoreError::RandomSourceError && prefix@.len() < target_length,
        },
        prefix@.len() >= target_length ==> r is Ok,
{
    if prefix.len() < target_length {
        let drawn = os_random_bytes(target_length - prefix.len());
        extend_with_draw(prefix, target_length, drawn)
    } else {
        let mut out: Vec<u8> = Vec::new();
        let mut i: usize = 0;
        while i < target_length
            invariant
                i <= target_length <= prefix@.len(),
                out@ == prefix@.subrange(0, i as int),
            decreases target_length - i,
        {
            out.push(prefix[i]);
            i += 1;
            assert(out@ =~= prefix@.subrange(0, i as int));
        }
        Ok(out)
    }
}

/// Pads `p` to a multiple of the block size: unchanged when it already is
/// one, else followed by the sentinel and random filler.
pub fn add_padding(p: &[u8]) -> (r: Result<Vec<u8>, StoreError>)
    requires
        p@.len() <= usize::MAX - 64,
    ensures
        match r {
            Ok(v) => is_padding_of(v@, p@),
            Err(e) => e == StoreError::RandomSourceError && p@.len() % 64 != 0,
        },
        p@.len() % 64 == 0 ==> r is Ok,
{
    let mut v = slice_to_vec(p);
    if v.len() % BLOCK_SIZE != 0 {
        v.push(SENTINEL);
        let target: usize = (p.len() / BLOCK_SIZE + 1) * BLOCK_SIZE;
        proof {
            let n = p@.len() as int;
            lemma_fundamental_div_mod(n, 64);
            assert(n + 1 <= (n / 64 + 1) * 64) by (nonlinear_arith)
                requires
                    n == 64 * (n / 64) + n % 64,
                    n % 64 < 64,
            ;
        }
        assert(v@.len() <= target);
        let r = fill_random_bytes(v.as_slice(), target);
        match r {
            Ok(w) => {
                assert(w@.subrange(0, p@.len() as int) =~= v@.subrange(0, p@.len() as int));
                assert(v@.subrange(0, p@.len() as int) =~= p@);
                assert(w@[p@.len() as int] == v@.subrange(0, v@.len() as int)[p@.len() as int]);
                Ok(w)
            },
            Err(e) => Err(e),
        }
    } else {
        Ok(v)
    }
}

/// The content of a padded buffer: everything before the first sentinel found
/// from the start of the last block on, or all but the last byte if none is.
pub fn remove_padding(s: &[u8]) -> (r: Vec<u8>)
    ensures
        r@ == unpadded(s@),
{
    let len = s.len();
    if len == 0 {
        return Vec::new();
    }
    let mut i: usize = if len >= BLOCK_SIZE { len - BLOCK_SIZE } else { 0 };
    while i + 1 < len && s[i] != SENTINEL
        invariant
            scan_start(len as nat) <= i < len,
            len == s@.len(),
            cut_from(s@, scan_start(len as nat)) == cut_from(s@, i as nat),
        decreases len - i,
    {
        i += 1;
    }
    let mut out: Vec<u8> = Vec::new();
    let mut j: usize = 0;
    while j < i
        invariant
            i < len == s@.len(),
            j <= i,
            out@ == s@.subrange(0, j as int),
        decreases i - j,
    {
        out.push(s[j]);
        j += 1;
        assert(out@ =~= s@.subrange(0, j as int));
    }
    out
}

/// Unpadding undoes padding for every plaintext whose last block holds no
/// sentinel and whose length is not a multiple of the block size.
pub proof fn lemma_unpad_pad(p: Seq<u8>, r: Seq<u8>)
    requires
        is_padding_of(r, p),
        unambiguous(p),
    ensures
        unpadded(r) == p,
{
    let start = scan_start(r.len());
    assert(start == (p.len() / 64) * 64) by {
        assert(r.len() == (p.len() / 64 + 1) * 64);
        assert((p.len() / 64 + 1) * 64 == (p.len() / 64) * 64 + 64) by (nonlinear_arith);
    }
    assert(start <= p.len()) by {
        assert((p.len() / 64) * 64 <= p.len()) by (nonlinear_arith);
    }
    assert forall|j: int| start <= j < p.len() implies #[trigger] r[j] != SENTINEL by {
        assert(r[j] == r.subrange(0, p.len() as int)[j]);
    }
    lemma_cut_reaches(r, p.len(), start);
    assert(r.subrange(0, p.len() as int) == p);
}

proof fn lemma_cut_reaches(r: Seq<u8>, k: nat, i: nat)
    requires
        i <= k < r.len(),
        r[k as int] == SENTINEL,
        forall|j: int| i <= j < k ==> #[trigger] r[j] != SENTINEL,
    ensures
        cut_from(r, i) == k,
    decreases k - i,
{
    if i < k {
        lemma_cut_reaches(r, k, i + 1);
    }
}

} // verus!
