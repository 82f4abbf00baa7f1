//! The candidate validator: a header hit is confirmed as a genuine file
//! start by a type-specific check of a short probe window read at the
//! matched header's position.  A probe that reaches past the end of the
//! device is padded with zero bytes, so a short read naturally fails the
//! byte checks, which rejects the candidate.

use vstd::prelude::*;
use crate::registry::{SigKind, Signature, PROBE_LEN};

verus! {

/// The probe window: `PROBE_LEN` bytes of the device starting at `p`,
/// padded with zeroes past the end of the device.
pub open spec fn probe_seq(dev: Seq<u8>, p: int) -> Seq<u8> {
    Seq::new(PROBE_LEN as nat, |j: int| if p + j < dev.len() { dev[p + j] } else { 0u8 })
}

/// JPEG acceptance: the probe opens with the JPEG header bytes followed
/// by one of the accepted marker bytes (JFIF or Exif), telling a true
/// file start from an incidental three-byte collision.
pub open spec fn jpg_probe_ok(b: Seq<u8>) -> bool {
    &&& b.len() >= 4
    &&& b[0] == 0xFFu8
    &&& b[1] == 0xD8u8
    &&& b[2] == 0xFFu8
    &&& (b[3] == 0xE0u8 || b[3] == 0xE1u8)
}

/// PNG acceptance: the probe carries the ASCII chunk tag `IHDR` at
/// offset 12, where the first chunk of a genuine PNG stream begins.
pub open spec fn png_probe_ok(b: Seq<u8>) -> bool {
    &&& b.len() >= 16
    &&& b[12] == 0x49u8
    &&& b[13] == 0x48u8
    &&& b[14] == 0x44u8
    &&& b[15] == 0x52u8
}

/// The type-specific acceptance predicate over a probe window.
pub open spec fn probe_ok(kind: SigKind, b: Seq<u8>) -> bool {
    match kind {
        SigKind::Jpg => jpg_probe_ok(b),
        SigKind::Png => png_probe_ok(b),
        SigKind::Generic => true,
    }
}

/// Copy the probe window starting at `p` out of the device, padding with
/// zeroes past the end of the device.
pub fn build_probe(dev: &Vec<u8>, p: usize) -> (r: Vec<u8>)
    requires
        p <= dev@.len(),
    ensures
        r@ == probe_seq(dev@, p as int),
        r@.len() == PROBE_LEN,
{
    let mut r: Vec<u8> = Vec::new();
    let mut j: usize = 0;
    while j < PROBE_LEN
        invariant
            j <= PROBE_LEN,
            p <= dev@.len(),
            r@.len() == j,
            forall|t: int| 0 <= t < j ==> r@[t] == probe_seq(dev@, p as int)[t],
        decreases PROBE_LEN - j,
    {
        if j < dev.len() - p {
            let b = dev[p + j];
            r.push(b);
        } else {
            r.push(0u8);
        }
        j += 1;
    }
    proof {
        assert(r@ =~= probe_seq(dev@, p as int));
    }
    r
}

/// Accept a probe as a genuine JPEG start.
pub fn validate_jpg(buf: &[u8]) -> (r: bool)
    ensures
        r == jpg_probe_ok(buf@),
{
    if buf.len() < 4 {
        return false;
    }
    buf[0] == 0xFF && buf[1] == 0xD8 && buf[2] == 0xFF && (buf[3] == 0xE0 || buf[3] == 0xE1)
}

/// Accept a probe as a genuine PNG start.
pub fn validate_png(buf: &[u8]) -> (r: bool)
    ensures
        r == png_probe_ok(buf@),
{
    if buf.len() < 16 {
        return false;
    }
    buf[12] == 0x49 && buf[13] == 0x48 && buf[14] == 0x44 && buf[15] == 0x52
}

/// Run the secondary check of the signature's kind over a probe window.
/// A kind with no check available accepts unconditionally.
pub fn validate_candidate(probe: &[u8], sig: &Signature) -> (r: bool)
    ensures
        r == probe_ok(sig.kind, probe@),
{
    match sig.kind {
        SigKind::Jpg => validate_jpg(probe),
        SigKind::Png => validate_png(probe),
        SigKind::Generic => true,
    }
}

} // verus!
