//! Laws of the carving engine: properties relating the scan contract,
//! the candidate predicates and the reconstruction relation, proved once
//! and for all over the specifications the public functions are bound
//! to.

use vstd::prelude::*;
use crate::reconstruct::{chunk_contains, recon_spec, RecoveryStatus};
use crate::registry::{footer_seq, sig_wf, sigs_wf, Signature, CHUNK_SIZE, SIZE_CAP};
use crate::scan::{discovery_ok, header_match, in_scope, match_end, match_idx, matched_at,
    probe_rejected_at, scan_post, valid_candidate, Discovery};

verus! {

/// No occurrence of `f` anywhere at or after `from`.
pub open spec fn footer_absent_from(dev: Seq<u8>, f: Seq<u8>, from: int) -> bool {
    forall|q: int|
        from <= q && q + f.len() <= dev.len() ==> #[trigger] dev.subrange(q, q + f.len()) != f
}

/// Streaming over data that never contains the footer, with everything
/// to the device's end within the size cap, ends at the device's end
/// with a partial verdict and a size that accounts every remaining byte.
pub proof fn lemma_recon_partial(dev: Seq<u8>, f: Seq<u8>, pos: int, size: nat)
    requires
        0 <= pos <= dev.len(),
        1 <= f.len(),
        footer_absent_from(dev, f, pos),
        size + dev.len() - pos <= SIZE_CAP,
    ensures
        recon_spec(dev, Option::Some(f), pos, size) == (
            (size + dev.len() - pos) as nat,
            RecoveryStatus::RecoveredPartial,
        ),
    decreases dev.len() - pos,
{
    if pos < dev.len() {
        let n = if CHUNK_SIZE <= dev.len() - pos {
            CHUNK_SIZE as int
        } else {
            dev.len() - pos
        };
        assert(!chunk_contains(dev.subrange(pos, pos + n), f)) by {
            if chunk_contains(dev.subrange(pos, pos + n), f) {
                let j = choose|j: int|
                    0 <= j && j + f.len() <= dev.subrange(pos, pos + n).len() && #[trigger] dev
                        .subrange(pos, pos + n)
                        .subrange(j, j + f.len()) == f;
                dev.lemma_slice_of_slice(pos, pos + n, j, j + f.len());
                assert(dev.subrange(pos + j, pos + j + f.len()) == f);
            }
        }
        lemma_recon_partial(dev, f, pos + n, (size + n) as nat);
    }
}

/// Streaming over data that never contains the footer, with more bytes
/// ahead than the cap leaves room for, stops with a corrupted verdict
/// and a size past the cap.
pub proof fn lemma_recon_corrupted(dev: Seq<u8>, f: Seq<u8>, pos: int, size: nat)
    requires
        0 <= pos <= dev.len(),
        1 <= f.len(),
        footer_absent_from(dev, f, pos),
        size <= SIZE_CAP,
        size + dev.len() - pos > SIZE_CAP,
    ensures
        recon_spec(dev, Option::Some(f), pos, size).1 == RecoveryStatus::RecoveredCorrupted,
        recon_spec(dev, Option::Some(f), pos, size).0 > SIZE_CAP,
    decreases dev.len() - pos,
{
    assert(pos < dev.len());
    let n = if CHUNK_SIZE <= dev.len() - pos {
        CHUNK_SIZE as int
    } else {
        dev.len() - pos
    };
    assert(!chunk_contains(dev.subrange(pos, pos + n), f)) by {
        if chunk_contains(dev.subrange(pos, pos + n), f) {
            let j = choose|j: int|
                0 <= j && j + f.len() <= dev.subrange(pos, pos + n).len() && #[trigger] dev
                    .subrange(pos, pos + n)
                    .subrange(j, j + f.len()) == f;
            dev.lemma_slice_of_slice(pos, pos + n, j, j + f.len());
            assert(dev.subrange(pos + j, pos + j + f.len()) == f);
        }
    }
    if size + n <= SIZE_CAP {
        lemma_recon_corrupted(dev, f, pos + n, (size + n) as nat);
    }
}

/// A footer standing wholly within the first reconstruction chunk ends
/// the stream at once: the verdict is a full recovery and the size runs
/// through that chunk's end.
pub proof fn lemma_recon_first_chunk_ok(dev: Seq<u8>, f: Seq<u8>, pos: int, size: nat, at: int)
    requires
        0 <= pos <= dev.len(),
        1 <= f.len(),
        pos <= at,
        at + f.len() <= dev.len(),
        at + f.len() <= pos + CHUNK_SIZE,
        dev.subrange(at, at + f.len()) == f,
    ensures
        ({
            let n = if CHUNK_SIZE <= dev.len() - pos {
                CHUNK_SIZE as int
            } else {
                dev.len() - pos
            };
            recon_spec(dev, Option::Some(f), pos, size) == (
                (size + n) as nat,
                RecoveryStatus::RecoveredOk,
            )
        }),
{
    assert(pos < dev.len());
    let n = if CHUNK_SIZE <= dev.len() - pos {
        CHUNK_SIZE as int
    } else {
        dev.len() - pos
    };
    assert(at + f.len() <= pos + n);
    assert(chunk_contains(dev.subrange(pos, pos + n), f)) by {
        dev.lemma_slice_of_slice(pos, pos + n, at - pos, at - pos + f.len());
        assert(dev.subrange(pos, pos + n).subrange(at - pos, at - pos + f.len()) == f);
    }
}

/// With no footer configured, reconstruction never reports a full
/// recovery: the stream can only end at the device's end or at the cap.
pub proof fn lemma_no_footer_never_ok(dev: Seq<u8>, pos: int, size: nat)
    ensures
        recon_spec(dev, Option::None, pos, size).1 != RecoveryStatus::RecoveredOk,
    decreases dev.len() - pos,
{
    if pos < dev.len() {
        let n = if CHUNK_SIZE <= dev.len() - pos {
            CHUNK_SIZE as int
        } else {
            dev.len() - pos
        };
        if size + n <= SIZE_CAP {
            lemma_no_footer_never_ok(dev, pos + n, (size + n) as nat);
        }
    }
}

/// A device with exactly one valid candidate yields exactly one
/// discovery: it stands at that offset, carries serial number one, and
/// is correct for its offset.
pub proof fn lemma_lone_candidate(dev: Seq<u8>, sigs: Seq<Signature>, ds: Seq<Discovery>, p: int)
    requires
        scan_post(dev, sigs, ds),
        valid_candidate(dev, sigs, p),
        forall|q: int| q != p ==> !valid_candidate(dev, sigs, q),
    ensures
        ds.len() == 1,
        ds[0].offset == p,
        ds[0].file.id == 1,
        discovery_ok(dev, sigs, ds[0]),
{
    assert(in_scope(dev, sigs, p, dev.len() as int, 0, 0, 0)) by {
        let i = match_idx(dev, sigs, p);
        assert(0 <= i < sigs.len() && header_match(dev, sigs[i], p));
    }
    let j = choose|j: int| 0 <= j < ds.len() && (#[trigger] ds[j]).offset == p;
    assert forall|j2: int| 0 <= j2 < ds.len() implies (#[trigger] ds[j2]).offset == p by {
        assert(discovery_ok(dev, sigs, ds[j2]));
        assert(valid_candidate(dev, sigs, ds[j2].offset as int));
    }
    if ds.len() >= 2 {
        assert(ds[0].offset == p && ds[1].offset == p);
        assert(false);
    }
    assert(0 <= j < ds.len());
    assert(ds.len() == 1 && j == 0);
}

/// One well-formed instance followed immediately by its footer, and
/// nothing else, is recovered whole: one discovery, verdict Ok, size at
/// least header plus footer.
pub proof fn lemma_single_instance_ok(
    dev: Seq<u8>,
    sigs: Seq<Signature>,
    ds: Seq<Discovery>,
    p: int,
    f: Seq<u8>,
)
    requires
        sigs_wf(sigs),
        scan_post(dev, sigs, ds),
        valid_candidate(dev, sigs, p),
        forall|q: int| q != p ==> !valid_candidate(dev, sigs, q),
        footer_seq(sigs[match_idx(dev, sigs, p)]) == Option::Some(f),
        dev.subrange(match_end(dev, sigs, p), match_end(dev, sigs, p) + f.len()) == f,
        match_end(dev, sigs, p) + f.len() <= dev.len(),
    ensures
        ds.len() == 1,
        ds[0].file.status == RecoveryStatus::RecoveredOk,
        ds[0].file.size >= sigs[match_idx(dev, sigs, p)].header@.len() + f.len(),
        ds[0].file.id == 1,
{
    lemma_lone_candidate(dev, sigs, ds, p);
    let i = match_idx(dev, sigs, p);
    assert(0 <= i < sigs.len() && header_match(dev, sigs[i], p));
    let s = sigs[i];
    assert(sig_wf(s));
    let h = s.header@.len() as int;
    let start = p + h;
    lemma_recon_first_chunk_ok(dev, f, start, h as nat, start);
}

/// A valid candidate whose following data never contains its footer,
/// with everything to the device's end within the size cap, is reported
/// partial, its size accounting every byte from the header to the
/// device's end.
pub proof fn lemma_unfooted_candidate_partial(
    dev: Seq<u8>,
    sigs: Seq<Signature>,
    ds: Seq<Discovery>,
    p: int,
    f: Seq<u8>,
)
    requires
        sigs_wf(sigs),
        scan_post(dev, sigs, ds),
        valid_candidate(dev, sigs, p),
        footer_seq(sigs[match_idx(dev, sigs, p)]) == Option::Some(f),
        footer_absent_from(dev, f, match_end(dev, sigs, p)),
        dev.len() - p <= SIZE_CAP,
    ensures
        exists|j: int| 0 <= j < ds.len() && (#[trigger] ds[j]).offset == p,
        forall|j: int|
            0 <= j < ds.len() && (#[trigger] ds[j]).offset == p ==> ds[j].file.status
                == RecoveryStatus::RecoveredPartial && ds[j].file.size == dev.len() - p,
{
    let i = match_idx(dev, sigs, p);
    assert(0 <= i < sigs.len() && header_match(dev, sigs[i], p));
    let s = sigs[i];
    assert(sig_wf(s));
    let h = s.header@.len() as int;
    assert(in_scope(dev, sigs, p, dev.len() as int, 0, 0, 0));
    lemma_recon_partial(dev, f, p + h, h as nat);
    assert forall|j: int| 0 <= j < ds.len() && (#[trigger] ds[j]).offset == p implies ds[j].file.status
        == RecoveryStatus::RecoveredPartial && ds[j].file.size == dev.len() - p by {
        assert(discovery_ok(dev, sigs, ds[j]));
    }
}

/// A valid candidate with more bytes ahead of it than the size cap and
/// no footer among them is reported corrupted, its size past the cap.
pub proof fn lemma_overlong_candidate_corrupted(
    dev: Seq<u8>,
    sigs: Seq<Signature>,
    ds: Seq<Discovery>,
    p: int,
    f: Seq<u8>,
)
    requires
        sigs_wf(sigs),
        scan_post(dev, sigs, ds),
        valid_candidate(dev, sigs, p),
        footer_seq(sigs[match_idx(dev, sigs, p)]) == Option::Some(f),
        footer_absent_from(dev, f, match_end(dev, sigs, p)),
        dev.len() - p > SIZE_CAP,
    ensures
        exists|j: int| 0 <= j < ds.len() && (#[trigger] ds[j]).offset == p,
        forall|j: int|
            0 <= j < ds.len() && (#[trigger] ds[j]).offset == p ==> ds[j].file.status
                == RecoveryStatus::RecoveredCorrupted && ds[j].file.size > SIZE_CAP,
{
    let i = match_idx(dev, sigs, p);
    assert(0 <= i < sigs.len() && header_match(dev, sigs[i], p));
    let s = sigs[i];
    assert(sig_wf(s));
    let h = s.header@.len() as int;
    assert(in_scope(dev, sigs, p, dev.len() as int, 0, 0, 0));
    assert(h <= CHUNK_SIZE < SIZE_CAP);
    lemma_recon_corrupted(dev, f, p + h, h as nat);
    assert forall|j: int| 0 <= j < ds.len() && (#[trigger] ds[j]).offset == p implies ds[j].file.status
        == RecoveryStatus::RecoveredCorrupted && ds[j].file.size > SIZE_CAP by {
        assert(discovery_ok(dev, sigs, ds[j]));
    }
}

/// A header hit that fails its type's probe check produces no discovery
/// at that offset, and leaves the numbering untouched: discoveries are
/// still numbered consecutively from one.
pub proof fn lemma_rejected_probe_no_discovery(
    dev: Seq<u8>,
    sigs: Seq<Signature>,
    ds: Seq<Discovery>,
    p: int,
)
    requires
        scan_post(dev, sigs, ds),
        matched_at(dev, sigs, p),
        probe_rejected_at(dev, sigs, p),
    ensures
        forall|j: int| 0 <= j < ds.len() ==> (#[trigger] ds[j]).offset != p,
        forall|j: int| 0 <= j < ds.len() ==> (#[trigger] ds[j]).file.id == j + 1,
{
    assert forall|j: int| 0 <= j < ds.len() implies (#[trigger] ds[j]).offset != p by {
        assert(discovery_ok(dev, sigs, ds[j]));
        assert(valid_candidate(dev, sigs, ds[j].offset as int));
    }
}

/// Discovery order follows device order: an earlier discovery stands at
/// a lower offset, unless its header ends in a later chunk than the
/// other's (possible only for headers of different lengths straddling a
/// chunk boundary).  In particular, two discoveries whose matched
/// headers have the same length always come out in offset order.
pub proof fn lemma_discovery_order(
    dev: Seq<u8>,
    sigs: Seq<Signature>,
    ds: Seq<Discovery>,
    j1: int,
    j2: int,
)
    requires
        scan_post(dev, sigs, ds),
        0 <= j1 < j2 < ds.len(),
        sigs[match_idx(dev, sigs, ds[j1].offset as int)].header@.len() == sigs[match_idx(
            dev,
            sigs,
            ds[j2].offset as int,
        )].header@.len(),
    ensures
        ds[j1].offset < ds[j2].offset,
{
    assert(ds[j1].offset < ds[j2].offset || match_end(dev, sigs, ds[j1].offset as int) < match_end(
        dev,
        sigs,
        ds[j2].offset as int,
    ));
}

/// Serial numbers start at one and increase strictly along the
/// discovery list, however many candidates were rejected along the way.
pub proof fn lemma_sequence_ids(dev: Seq<u8>, sigs: Seq<Signature>, ds: Seq<Discovery>)
    requires
        scan_post(dev, sigs, ds),
    ensures
        ds.len() > 0 ==> ds[0].file.id == 1,
        forall|j1: int, j2: int|
            0 <= j1 < j2 < ds.len() ==> (#[trigger] ds[j1]).file.id < (#[trigger] ds[j2]).file.id,
{
}

} // verus!
