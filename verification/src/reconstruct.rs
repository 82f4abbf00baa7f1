//! The reconstructor: from the device position immediately after a
//! validated header, stream forward chunk by chunk, accumulating a size
//! that starts at the header length, until either the footer sequence is
//! seen inside a chunk (recovered in full), the device ends (partial), or
//! the accumulated size passes the hard cap (corrupted).  The footer is
//! searched only within each chunk taken on its own: a footer split
//! across a chunk boundary is deliberately not detected.  The size is
//! accounted generously: it runs through the end of the chunk the footer
//! was found in, not merely to the footer's last byte.

use vstd::prelude::*;
use crate::registry::{footer_seq, sig_wf, Signature, CHUNK_SIZE, SIZE_CAP};

verus! {

/// The recovery-quality verdict of one reconstructed candidate.
#[derive(Clone, Copy, PartialEq, Eq, Structural, Debug)]
pub enum RecoveryStatus {
    /// The footer was reached: the candidate is taken to be complete.
    RecoveredOk,
    /// The device ended first: only a leading part was recovered.
    RecoveredPartial,
    /// The size cap was passed without a footer: the data is not trusted.
    RecoveredCorrupted,
}

/// Does `f` occur somewhere entirely inside `chunk`?
pub open spec fn chunk_contains(chunk: Seq<u8>, f: Seq<u8>) -> bool {
    exists|j: int|
        0 <= j && j + f.len() <= chunk.len() && #[trigger] chunk.subrange(j, j + f.len()) == f
}

/// The reconstruction relation: the size and status reached by streaming
/// chunks from `pos` with `size` bytes already accounted for.  This is
/// the reference meaning of reconstruction; the executable walk below is
/// proved equal to it.
pub open spec fn recon_spec(
    dev: Seq<u8>,
    footer: Option<Seq<u8>>,
    pos: int,
    size: nat,
) -> (nat, RecoveryStatus)
    decreases dev.len() - pos,
{
    if pos >= dev.len() {
        (size, RecoveryStatus::RecoveredPartial)
    } else {
        let n = if CHUNK_SIZE <= dev.len() - pos {
            CHUNK_SIZE as int
        } else {
            dev.len() - pos
        };
        let size2 = (size + n) as nat;
        if footer matches Option::Some(f) && chunk_contains(dev.subrange(pos, pos + n), f) {
            (size2, RecoveryStatus::RecoveredOk)
        } else if size2 > SIZE_CAP {
            (size2, RecoveryStatus::RecoveredCorrupted)
        } else {
            recon_spec(dev, footer, pos + n, size2)
        }
    }
}

/// Do the bytes of the device at `at` equal `pat`?
#[verifier::loop_isolation(false)]
pub fn bytes_eq_at(dev: &Vec<u8>, at: usize, pat: &Vec<u8>) -> (r: bool)
    requires
        at + pat@.len() <= dev@.len(),
    ensures
        r == (dev@.subrange(at as int, at + pat@.len()) == pat@),
{
    // the device length bounds every index below by usize
    let dl: usize = dev.len();
    let mut k: usize = 0;
    while k < pat.len()
        invariant
            at + pat@.len() <= dev@.len(),
            k <= pat@.len(),
            forall|t: int| 0 <= t < k ==> dev@[at + t] == pat@[t],
        decreases pat@.len() - k,
    {
        if dev[at + k] != pat[k] {
            proof {
                let s = dev@.subrange(at as int, at + pat@.len());
                assert(s[k as int] == dev@[at + k]);
            }
            return false;
        }
        k += 1;
    }
    proof {
        assert(dev@.subrange(at as int, at + pat@.len()) =~= pat@);
    }
    true
}

/// Does `f` occur entirely inside the device range `[lo, hi)`?
#[verifier::loop_isolation(false)]
pub fn range_contains(dev: &Vec<u8>, lo: usize, hi: usize, f: &Vec<u8>) -> (r: bool)
    requires
        lo <= hi <= dev@.len(),
        1 <= f@.len(),
    ensures
        r == chunk_contains(dev@.subrange(lo as int, hi as int), f@),
{
    let flen = f.len();
    let ghost chunk = dev@.subrange(lo as int, hi as int);
    if hi - lo < flen {
        return false;
    }
    let mut j: usize = lo;
    while j <= hi - flen
        invariant
            lo <= j <= hi - flen + 1,
            flen == f@.len(),
            1 <= flen <= hi - lo,
            lo <= hi <= dev@.len(),
            chunk == dev@.subrange(lo as int, hi as int),
            forall|t: int| lo <= t < j ==> #[trigger] dev@.subrange(t, t + flen) != f@,
        decreases hi - flen - j + 1,
    {
        if bytes_eq_at(dev, j, f) {
            proof {
                dev@.lemma_slice_of_slice(lo as int, hi as int, j - lo, j - lo + flen);
                assert(chunk.subrange(j - lo, j - lo + flen) == f@);
            }
            return true;
        }
        j += 1;
    }
    proof {
        assert forall|t: int| 0 <= t && t + flen <= chunk.len() implies #[trigger] chunk.subrange(
            t,
            t + flen,
        ) != f@ by {
            dev@.lemma_slice_of_slice(lo as int, hi as int, t, t + flen);
            assert(dev@.subrange(lo + t, lo + t + flen) != f@);
            assert(chunk.subrange(t, t + flen) =~= dev@.subrange(lo + t, lo + t + flen));
        }
    }
    false
}

/// Stream forward from `start` (the post-header position) and return the
/// accumulated size and the verdict, exactly as `recon_spec` defines
/// them.
#[verifier::loop_isolation(false)]
pub fn reconstruct_file(dev: &Vec<u8>, start: usize, sig: &Signature) -> (r: (u64, RecoveryStatus))
    requires
        start <= dev@.len(),
        sig_wf(*sig),
    ensures
        (r.0 as nat, r.1) == recon_spec(dev@, footer_seq(*sig), start as int, sig.header@.len()),
{
    let hlen = sig.header.len();
    let mut size: u64 = hlen as u64;
    let mut pos: usize = start;
    loop
        invariant
            start <= pos <= dev@.len(),
            size <= SIZE_CAP,
            sig_wf(*sig),
            recon_spec(dev@, footer_seq(*sig), start as int, sig.header@.len()) == recon_spec(
                dev@,
                footer_seq(*sig),
                pos as int,
                size as nat,
            ),
        decreases dev@.len() - pos,
    {
        if pos >= dev.len() {
            return (size, RecoveryStatus::RecoveredPartial);
        }
        let rem = dev.len() - pos;
        let n = if CHUNK_SIZE <= rem {
            CHUNK_SIZE
        } else {
            rem
        };
        let new_size = size + n as u64;
        let new_pos = pos + n;
        let found = match &sig.footer {
            Some(f) => range_contains(dev, pos, new_pos, f),
            None => false,
        };
        proof {
            assert(found == (footer_seq(*sig) matches Option::Some(f) && chunk_contains(
                dev@.subrange(pos as int, pos + n),
                f,
            )));
        }
        if found {
            return (new_size, RecoveryStatus::RecoveredOk);
        }
        if new_size > SIZE_CAP {
            return (new_size, RecoveryStatus::RecoveredCorrupted);
        }
        size = new_size;
        pos = new_pos;
    }
}

} // verus!
