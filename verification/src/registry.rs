//! The signature registry: the fixed table of file-type descriptors the
//! scanner applies to every window position, together with the global
//! engine parameters (chunk size, probe length, reconstruction size cap).

use vstd::prelude::*;

verus! {

/// Number of bytes read from the device per scan or reconstruction step.
pub const CHUNK_SIZE: usize = 4096;

/// Hard cap on the accumulated size of a reconstructed candidate; a
/// candidate that grows past this without reaching its footer is reported
/// as corrupted and reconstruction stops.
pub const SIZE_CAP: u64 = 100 * 1024 * 1024;

/// Length of the probe window the validator inspects at a header hit.
pub const PROBE_LEN: usize = 32;

/// The closed set of signature kinds; each kind selects the secondary
/// probe check that confirms a header hit is a genuine file start.
#[derive(Clone, Copy, PartialEq, Eq, Structural, Debug)]
pub enum SigKind {
    /// JPEG-like: the probe must open with the header bytes followed by an
    /// accepted marker byte.
    Jpg,
    /// PNG-like: the probe must carry the ASCII chunk tag `IHDR` at a
    /// fixed offset.
    Png,
    /// No secondary check is available; every header hit is accepted.
    Generic,
}

/// A file-type descriptor: a non-empty fixed header, and optionally a
/// footer sequence that marks the conventional end of the type.
pub struct Signature {
    pub kind: SigKind,
    pub type_tag: String,
    pub header: Vec<u8>,
    pub footer: Option<Vec<u8>>,
}

/// The footer of a signature, as a mathematical sequence.
pub open spec fn footer_seq(s: Signature) -> Option<Seq<u8>> {
    match s.footer {
        Option::Some(f) => Option::Some(f@),
        Option::None => Option::None,
    }
}

/// A single descriptor is well formed: its header is non-empty and no
/// longer than a chunk (so a header always fits inside one scan window),
/// and its footer, if any, is non-empty and no longer than a chunk.
pub open spec fn sig_wf(s: Signature) -> bool {
    &&& 0 < s.header@.len() <= CHUNK_SIZE
    &&& match footer_seq(s) {
        Option::Some(f) => 1 <= f.len() <= CHUNK_SIZE,
        Option::None => true,
    }
}

/// `a` is a prefix of `b`.
pub open spec fn seq_is_prefix(a: Seq<u8>, b: Seq<u8>) -> bool {
    a.len() <= b.len() && a == b.subrange(0, a.len() as int)
}

/// A registry is well formed: every descriptor is well formed, and no
/// header is a prefix of another (so at most one signature can match at
/// any device position, making the scan order over signatures
/// irrelevant beyond determinism).
pub open spec fn sigs_wf(sigs: Seq<Signature>) -> bool {
    &&& forall|i: int| 0 <= i < sigs.len() ==> sig_wf(#[trigger] sigs[i])
    &&& forall|i: int, j: int|
        0 <= i < sigs.len() && 0 <= j < sigs.len() && i != j ==> !seq_is_prefix(
            (#[trigger] sigs[i]).header@,
            (#[trigger] sigs[j]).header@,
        )
}

/// The exact content of the built-in registry: a JPEG entry followed by a
/// PNG entry, with their standard header and footer byte sequences.
pub open spec fn registry_wf(sigs: Seq<Signature>) -> bool {
    &&& sigs.len() == 2
    &&& sigs[0].kind == SigKind::Jpg
    &&& sigs[0].type_tag@ == "jpg"@
    &&& sigs[0].header@ == seq![0xFFu8, 0xD8u8, 0xFFu8]
    &&& footer_seq(sigs[0]) == Option::Some(seq![0xFFu8, 0xD9u8])
    &&& sigs[1].kind == SigKind::Png
    &&& sigs[1].type_tag@ == "png"@
    &&& sigs[1].header@ == seq![0x89u8, 0x50u8, 0x4Eu8, 0x47u8, 0x0Du8, 0x0Au8, 0x1Au8, 0x0Au8]
    &&& footer_seq(sigs[1]) == Option::Some(seq![0x49u8, 0x45u8, 0x4Eu8, 0x44u8])
}

/// Build the registry, in declaration order: JPEG, then PNG.
pub fn signatures() -> (r: Vec<Signature>)
    ensures
        registry_wf(r@),
        sigs_wf(r@),
{
    let mut jh: Vec<u8> = Vec::new();
    jh.push(0xFF);
    jh.push(0xD8);
    jh.push(0xFF);
    let mut jf: Vec<u8> = Vec::new();
    jf.push(0xFF);
    jf.push(0xD9);
    let mut ph: Vec<u8> = Vec::new();
    ph.push(0x89);
    ph.push(0x50);
    ph.push(0x4E);
    ph.push(0x47);
    ph.push(0x0D);
    ph.push(0x0A);
    ph.push(0x1A);
    ph.push(0x0A);
    let mut pf: Vec<u8> = Vec::new();
    pf.push(0x49);
    pf.push(0x45);
    pf.push(0x4E);
    pf.push(0x44);
    let jpg = Signature { kind: SigKind::Jpg, type_tag: "jpg".to_string(), header: jh, footer: Some(jf) };
    let png = Signature { kind: SigKind::Png, type_tag: "png".to_string(), header: ph, footer: Some(pf) };
    let mut r: Vec<Signature> = Vec::new();
    r.push(jpg);
    r.push(png);
    proof {
        assert(r@[0].header@ =~= seq![0xFFu8, 0xD8u8, 0xFFu8]);
        assert(footer_seq(r@[0])->Some_0 =~= seq![0xFFu8, 0xD9u8]);
        assert(r@[1].header@ =~= seq![0x89u8, 0x50u8, 0x4Eu8, 0x47u8, 0x0Du8, 0x0Au8, 0x1Au8, 0x0Au8]);
        assert(footer_seq(r@[1])->Some_0 =~= seq![0x49u8, 0x45u8, 0x4Eu8, 0x44u8]);
        assert(!seq_is_prefix(r@[0].header@, r@[1].header@)) by {
            if seq_is_prefix(r@[0].header@, r@[1].header@) {
                assert(r@[1].header@.subrange(0, 3)[0] == r@[1].header@[0]);
                assert(r@[0].header@[0] == 0xFFu8);
            }
        }
        assert(!seq_is_prefix(r@[1].header@, r@[0].header@));
        assert(sigs_wf(r@)) by {
            assert(forall|i: int| 0 <= i < r@.len() ==> sig_wf(#[trigger] r@[i])) by {
                assert(sig_wf(r@[0]));
                assert(sig_wf(r@[1]));
            }
        }
    }
    r
}

/// The longest header length over the registry; zero for an empty one.
pub fn max_header_len(sigs: &Vec<Signature>) -> (r: usize)
    ensures
        forall|i: int| 0 <= i < sigs@.len() ==> (#[trigger] sigs@[i]).header@.len() <= r,
        r == 0 || exists|i: int|
            0 <= i < sigs@.len() && r == (#[trigger] sigs@[i]).header@.len(),
{
    let mut m: usize = 0;
    let mut i: usize = 0;
    while i < sigs.len()
        invariant
            i <= sigs@.len(),
            forall|k: int| 0 <= k < i ==> (#[trigger] sigs@[k]).header@.len() <= m,
            m == 0 || exists|k: int|
                0 <= k < sigs@.len() && m == (#[trigger] sigs@[k]).header@.len(),
        decreases sigs@.len() - i,
    {
        let s = &sigs[i];
        let h = s.header.len();
        if h > m {
            m = h;
        }
        i += 1;
    }
    m
}

} // verus!
