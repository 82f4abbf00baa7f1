//! The chunked scanner: the run driver.  It walks the device in
//! fixed-size chunks, scans a window that carries the last
//! `max header length - 1` bytes over from the previous chunk (so a
//! header split across a chunk boundary is still found), deduplicates
//! header hits by absolute offset, and for every new hit runs the
//! validator and, on acceptance, the reconstructor, numbering the
//! discoveries from one.

use vstd::prelude::*;
use crate::reconstruct::{recon_spec, reconstruct_file, RecoveryStatus};
use crate::registry::{footer_seq, seq_is_prefix, sig_wf, sigs_wf, registry_wf, signatures,
    max_header_len, Signature, CHUNK_SIZE};
use crate::validate::{build_probe, probe_ok, probe_seq, validate_candidate};

verus! {

/// One recovered file, as handed to the result sink: a run-scoped serial
/// number, the matched type's tag, and the reconstructed size and
/// verdict.
pub struct RecoveredFile {
    pub id: u32,
    pub file_type: String,
    pub size: u64,
    pub status: RecoveryStatus,
}

/// One discovery of a scan run: the absolute device offset the file
/// starts at, and the file recovered there.
pub struct Discovery {
    pub offset: u64,
    pub file: RecoveredFile,
}

/// The header of `s` stands at device position `p`.
pub open spec fn header_match(dev: Seq<u8>, s: Signature, p: int) -> bool {
    &&& 0 <= p
    &&& p + s.header@.len() <= dev.len()
    &&& dev.subrange(p, p + s.header@.len()) == s.header@
}

/// Some signature of the registry matches at `p`.
pub open spec fn matched_at(dev: Seq<u8>, sigs: Seq<Signature>, p: int) -> bool {
    exists|i: int| 0 <= i < sigs.len() && header_match(dev, #[trigger] sigs[i], p)
}

/// The index of the signature matching at `p`; in a well-formed registry
/// (no header a prefix of another) it is unique.
pub open spec fn match_idx(dev: Seq<u8>, sigs: Seq<Signature>, p: int) -> int {
    choose|i: int| 0 <= i < sigs.len() && header_match(dev, #[trigger] sigs[i], p)
}

/// The device position one past the matching header at `p`.
pub open spec fn match_end(dev: Seq<u8>, sigs: Seq<Signature>, p: int) -> int {
    p + sigs[match_idx(dev, sigs, p)].header@.len()
}

/// A position whose header match also passes its type's probe check:
/// exactly the positions a scan run must discover.
pub open spec fn valid_candidate(dev: Seq<u8>, sigs: Seq<Signature>, p: int) -> bool {
    &&& matched_at(dev, sigs, p)
    &&& probe_ok(sigs[match_idx(dev, sigs, p)].kind, probe_seq(dev, p))
}

/// The type-specific probe check refuses the header hit at `p`.
pub open spec fn probe_rejected_at(dev: Seq<u8>, sigs: Seq<Signature>, p: int) -> bool {
    !probe_ok(sigs[match_idx(dev, sigs, p)].kind, probe_seq(dev, p))
}

/// What a discovery at offset `d.offset` must carry: the matching
/// signature's tag, and the size and verdict that reconstruction from
/// the post-header position yields.
pub open spec fn discovery_ok(dev: Seq<u8>, sigs: Seq<Signature>, d: Discovery) -> bool {
    let p = d.offset as int;
    let s = sigs[match_idx(dev, sigs, p)];
    &&& valid_candidate(dev, sigs, p)
    &&& d.file.file_type@ == s.type_tag@
    &&& (d.file.size as nat, d.file.status) == recon_spec(
        dev,
        footer_seq(s),
        p + s.header@.len(),
        s.header@.len(),
    )
}

/// The positions the scan has fully handled at an intermediate state:
/// those whose matching header ends by `bound` (covered by the chunks
/// already scanned), plus, inside the current window, those before the
/// scan cursor `wcut` whose header ends by the window's end `wend`.
pub open spec fn in_scope(
    dev: Seq<u8>,
    sigs: Seq<Signature>,
    p: int,
    bound: int,
    wstart: int,
    wcut: int,
    wend: int,
) -> bool {
    &&& matched_at(dev, sigs, p)
    &&& (match_end(dev, sigs, p) <= bound || (wstart <= p < wcut && match_end(dev, sigs, p)
        <= wend))
}

/// The dedup set holds exactly the handled positions, once each.
pub open spec fn seen_ok(
    dev: Seq<u8>,
    sigs: Seq<Signature>,
    seen: Seq<u64>,
    bound: int,
    wstart: int,
    wcut: int,
    wend: int,
) -> bool {
    &&& seen.no_duplicates()
    &&& forall|j: int|
        0 <= j < seen.len() ==> in_scope(dev, sigs, (#[trigger] seen[j]) as int, bound, wstart, wcut, wend)
    &&& forall|p: int|
        #[trigger] in_scope(dev, sigs, p, bound, wstart, wcut, wend) ==> seen.contains(p as u64)
}

/// The discoveries list is sound and complete for the handled positions:
/// every entry is a correct discovery at a handled position, entries are
/// numbered consecutively from one, no two entries share an offset,
/// every handled valid candidate has an entry, and entries come in scan
/// order: a later entry stands at a later offset, or its header ends in
/// a later chunk.
pub open spec fn out_ok(
    dev: Seq<u8>,
    sigs: Seq<Signature>,
    out: Seq<Discovery>,
    bound: int,
    wstart: int,
    wcut: int,
    wend: int,
) -> bool {
    &&& forall|j: int| 0 <= j < out.len() ==> discovery_ok(dev, sigs, #[trigger] out[j])
    &&& forall|j: int| 0 <= j < out.len() ==> (#[trigger] out[j]).file.id == j + 1
    &&& forall|j: int|
        0 <= j < out.len() ==> in_scope(
            dev,
            sigs,
            (#[trigger] out[j]).offset as int,
            bound,
            wstart,
            wcut,
            wend,
        )
    &&& forall|j1: int, j2: int|
        0 <= j1 < out.len() && 0 <= j2 < out.len() && j1 != j2 ==> (#[trigger] out[j1]).offset != (
        #[trigger] out[j2]).offset
    &&& forall|p: int|
        #[trigger] in_scope(dev, sigs, p, bound, wstart, wcut, wend) && valid_candidate(
            dev,
            sigs,
            p,
        ) ==> exists|j: int| 0 <= j < out.len() && (#[trigger] out[j]).offset == p
    &&& forall|j1: int, j2: int|
        0 <= j1 < j2 < out.len() ==> ((#[trigger] out[j1]).offset < (#[trigger] out[j2]).offset
            || match_end(dev, sigs, out[j1].offset as int) < match_end(
            dev,
            sigs,
            out[j2].offset as int,
        ))
}

/// The contract of a whole scan run over `dev` with registry `sigs`.
pub open spec fn scan_post(dev: Seq<u8>, sigs: Seq<Signature>, out: Seq<Discovery>) -> bool {
    out_ok(dev, sigs, out, dev.len() as int, 0, 0, 0)
}

/// In a well-formed registry at most one signature matches at a
/// position: two matching headers would make the shorter a prefix of the
/// longer.
pub proof fn lemma_match_unique(dev: Seq<u8>, sigs: Seq<Signature>, p: int, i: int, j: int)
    requires
        sigs_wf(sigs),
        0 <= i < sigs.len(),
        0 <= j < sigs.len(),
        header_match(dev, sigs[i], p),
        header_match(dev, sigs[j], p),
    ensures
        i == j,
{
    if i != j {
        let hi = sigs[i].header@.len() as int;
        let hj = sigs[j].header@.len() as int;
        if hi <= hj {
            assert(sigs[j].header@.subrange(0, hi) =~= sigs[i].header@) by {
                assert forall|t: int| 0 <= t < hi implies sigs[j].header@[t]
                    == sigs[i].header@[t] by {
                    assert(dev.subrange(p, p + hi)[t] == dev[p + t]);
                    assert(dev.subrange(p, p + hj)[t] == dev[p + t]);
                }
            }
            assert(seq_is_prefix(sigs[i].header@, sigs[j].header@));
        } else {
            assert(sigs[i].header@.subrange(0, hj) =~= sigs[j].header@) by {
                assert forall|t: int| 0 <= t < hj implies sigs[i].header@[t]
                    == sigs[j].header@[t] by {
                    assert(dev.subrange(p, p + hj)[t] == dev[p + t]);
                    assert(dev.subrange(p, p + hi)[t] == dev[p + t]);
                }
            }
            assert(seq_is_prefix(sigs[j].header@, sigs[i].header@));
        }
    }
}

/// If `sigs[i]` matches at `p`, then `i` is the (unique) match index.
pub proof fn lemma_match_is(dev: Seq<u8>, sigs: Seq<Signature>, p: int, i: int)
    requires
        sigs_wf(sigs),
        0 <= i < sigs.len(),
        header_match(dev, sigs[i], p),
    ensures
        matched_at(dev, sigs, p),
        match_idx(dev, sigs, p) == i,
        match_end(dev, sigs, p) == p + sigs[i].header@.len(),
{
    assert(matched_at(dev, sigs, p));
    let k = match_idx(dev, sigs, p);
    assert(0 <= k < sigs.len() && header_match(dev, sigs[k], p));
    lemma_match_unique(dev, sigs, p, k, i);
}

/// A duplicate-free sequence of offsets below `l` has at most `l`
/// entries.
pub proof fn lemma_distinct_below(s: Seq<u64>, l: int)
    requires
        s.no_duplicates(),
        l >= 0,
        forall|k: int| 0 <= k < s.len() ==> ((#[trigger] s[k]) as int) < l,
    ensures
        s.len() <= l,
{
    let m = s.map_values(|x: u64| x as int);
    assert(m.no_duplicates()) by {
        assert forall|k1: int, k2: int|
            0 <= k1 < m.len() && 0 <= k2 < m.len() && k1 != k2 implies m[k1] != m[k2] by {
            assert(s[k1] != s[k2]);
        }
    }
    m.unique_seq_to_set();
    vstd::set_lib::lemma_int_range(0, l);
    assert(m.to_set().subset_of(vstd::set_lib::set_int_range(0, l))) by {
        assert forall|x: int| m.to_set().contains(x) implies vstd::set_lib::set_int_range(
            0,
            l,
        ).contains(x) by {
            let k = choose|k: int| 0 <= k < m.len() && m[k] == x;
            assert(0 <= (s[k] as int) < l);
        }
    }
    vstd::set_lib::lemma_len_subset(m.to_set(), vstd::set_lib::set_int_range(0, l));
}

/// Find the first signature whose header both fits before `limit` and
/// matches the device at `p`.
#[verifier::loop_isolation(false)]
fn find_match(dev: &Vec<u8>, p: usize, limit: usize, sigs: &Vec<Signature>) -> (r: Option<usize>)
    requires
        p <= limit,
        limit <= dev@.len(),
    ensures
        match r {
            Option::Some(k) => {
                &&& 0 <= k < sigs@.len()
                &&& p + sigs@[k as int].header@.len() <= limit
                &&& header_match(dev@, sigs@[k as int], p as int)
            },
            Option::None => forall|k2: int|
                0 <= k2 < sigs@.len() ==> !(p + (#[trigger] sigs@[k2]).header@.len() <= limit
                    && header_match(dev@, sigs@[k2], p as int)),
        },
{
    let mut k: usize = 0;
    while k < sigs.len()
        invariant
            k <= sigs@.len(),
            forall|k2: int|
                0 <= k2 < k ==> !(p + (#[trigger] sigs@[k2]).header@.len() <= limit
                    && header_match(dev@, sigs@[k2], p as int)),
        decreases sigs@.len() - k,
    {
        let s = &sigs[k];
        let h = s.header.len();
        if h <= limit - p {
            if bytes_eq_header(dev, p, s) {
                return Some(k);
            }
        }
        k += 1;
    }
    None
}

/// Do the device bytes at `at` spell out the header of `s`?
fn bytes_eq_header(dev: &Vec<u8>, at: usize, s: &Signature) -> (r: bool)
    requires
        at + s.header@.len() <= dev@.len(),
    ensures
        r == header_match(dev@, *s, at as int),
{
    crate::reconstruct::bytes_eq_at(dev, at, &s.header)
}

/// Is `x` in the dedup set?
#[verifier::loop_isolation(false)]
fn seen_contains(seen: &Vec<u64>, x: u64) -> (r: bool)
    ensures
        r == seen@.contains(x),
{
    let mut k: usize = 0;
    while k < seen.len()
        invariant
            k <= seen@.len(),
            forall|t: int| 0 <= t < k ==> seen@[t] != x,
        decreases seen@.len() - k,
    {
        if seen[k] == x {
            return true;
        }
        k += 1;
    }
    proof {
        if seen@.contains(x) {
            let t = choose|t: int| 0 <= t < seen@.len() && seen@[t] == x;
        }
    }
    false
}

/// Restate the two state invariants under a different bound/window
/// parameterisation that describes the same set of handled positions.
pub proof fn lemma_state_reparam(
    dev: Seq<u8>,
    sigs: Seq<Signature>,
    seen: Seq<u64>,
    out: Seq<Discovery>,
    b1: int,
    ws1: int,
    wc1: int,
    we1: int,
    b2: int,
    ws2: int,
    wc2: int,
    we2: int,
)
    requires
        seen_ok(dev, sigs, seen, b1, ws1, wc1, we1),
        out_ok(dev, sigs, out, b1, ws1, wc1, we1),
        forall|q: int|
            #![trigger in_scope(dev, sigs, q, b2, ws2, wc2, we2)]
            #![trigger in_scope(dev, sigs, q, b1, ws1, wc1, we1)]
            in_scope(dev, sigs, q, b2, ws2, wc2, we2) <==> in_scope(dev, sigs, q, b1, ws1, wc1, we1),
    ensures
        seen_ok(dev, sigs, seen, b2, ws2, wc2, we2),
        out_ok(dev, sigs, out, b2, ws2, wc2, we2),
{
    assert forall|j: int| 0 <= j < seen.len() implies in_scope(
        dev,
        sigs,
        (#[trigger] seen[j]) as int,
        b2,
        ws2,
        wc2,
        we2,
    ) by {
        assert(in_scope(dev, sigs, seen[j] as int, b1, ws1, wc1, we1));
    }
    assert forall|q: int| #[trigger] in_scope(dev, sigs, q, b2, ws2, wc2, we2) implies seen.contains(
        q as u64,
    ) by {
        assert(in_scope(dev, sigs, q, b1, ws1, wc1, we1));
    }
    assert forall|j: int| 0 <= j < out.len() implies in_scope(
        dev,
        sigs,
        (#[trigger] out[j]).offset as int,
        b2,
        ws2,
        wc2,
        we2,
    ) by {
        assert(in_scope(dev, sigs, out[j].offset as int, b1, ws1, wc1, we1));
    }
    assert forall|q: int|
        #[trigger] in_scope(dev, sigs, q, b2, ws2, wc2, we2) && valid_candidate(
            dev,
            sigs,
            q,
        ) implies exists|j: int| 0 <= j < out.len() && (#[trigger] out[j]).offset == q by {
        assert(in_scope(dev, sigs, q, b1, ws1, wc1, we1));
    }
}


/// Run one full scan over the device.  The scanner walks the device
/// chunk by chunk; over each chunk it scans the window that starts
/// `max header length - 1` bytes before the chunk (the carry-over) and
/// ends at the chunk's end, so a header split across the boundary is
/// still found.  Each header hit is deduplicated by absolute offset,
/// validated, and, on acceptance, reconstructed and appended to the
/// result with the next serial number.  The result holds exactly one
/// discovery per valid candidate position of the device.
#[verifier::loop_isolation(false)]
#[verifier::rlimit(80)]
pub fn scan_device(dev: &Vec<u8>, sigs: &Vec<Signature>) -> (out: Vec<Discovery>)
    requires
        sigs_wf(sigs@),
        dev@.len() < 0x1_0000_0000,
    ensures
        scan_post(dev@, sigs@, out@),
{
    let maxh = max_header_len(sigs);
    let carry = if maxh == 0 {
        0
    } else {
        maxh - 1
    };
    let mut pos: usize = 0;
    let mut seen: Vec<u64> = Vec::new();
    let mut out: Vec<Discovery> = Vec::new();
    while pos < dev.len()
        invariant
            pos <= dev@.len(),
            seen_ok(dev@, sigs@, seen@, pos as int, 0, 0, 0),
            out_ok(dev@, sigs@, out@, pos as int, 0, 0, 0),
            out@.len() <= seen@.len(),
        decreases dev@.len() - pos,
    {
        let rem = dev.len() - pos;
        let n = if CHUNK_SIZE <= rem {
            CHUNK_SIZE
        } else {
            rem
        };
        let chunk_end = pos + n;
        let ol = if carry <= pos {
            carry
        } else {
            pos
        };
        let win_start = pos - ol;
        let ghost pos0 = pos as int;
        let ghost ws = win_start as int;
        let ghost ce = chunk_end as int;
        proof {
            lemma_state_reparam(dev@, sigs@, seen@, out@, pos0, 0, 0, 0, pos0, ws, ws, ce);
        }
        let mut p: usize = win_start;
        while p < chunk_end
            invariant
                win_start <= p <= chunk_end,
                seen_ok(dev@, sigs@, seen@, pos0, ws, p as int, ce),
                out_ok(dev@, sigs@, out@, pos0, ws, p as int, ce),
                out@.len() <= seen@.len(),
            decreases chunk_end - p,
        {
            let m = find_match(dev, p, chunk_end, sigs);
            match m {
                Some(k) => {
                    proof {
                        lemma_match_is(dev@, sigs@, p as int, k as int);
                    }
                    let p64: u64 = p as u64;
                    if !seen_contains(&seen, p64) {
                        let ghost seen0 = seen@;
                        let ghost out0 = out@;
                        seen.push(p64);
                        proof {
                            assert(in_scope(dev@, sigs@, p as int, pos0, ws, p + 1, ce));
                            assert(seen@.no_duplicates()) by {
                                assert forall|j1: int, j2: int|
                                    0 <= j1 < seen@.len() && 0 <= j2 < seen@.len() && j1
                                    != j2 implies seen@[j1] != seen@[j2] by {
                                    if j1 < seen0.len() && j2 < seen0.len() {
                                    } else if j1 < seen0.len() {
                                        if seen0[j1] == p64 {
                                            assert(seen0.contains(p64));
                                        }
                                    } else {
                                        if seen0[j2] == p64 {
                                            assert(seen0.contains(p64));
                                        }
                                    }
                                }
                            }
                            assert forall|j: int| 0 <= j < seen@.len() implies in_scope(
                                dev@,
                                sigs@,
                                (#[trigger] seen@[j]) as int,
                                pos0,
                                ws,
                                p + 1,
                                ce,
                            ) by {
                                if j < seen0.len() {
                                    assert(in_scope(dev@, sigs@, seen0[j] as int, pos0, ws, p as int, ce));
                                }
                            }
                            assert forall|q: int| #[trigger] in_scope(
                                dev@,
                                sigs@,
                                q,
                                pos0,
                                ws,
                                p + 1,
                                ce,
                            ) implies seen@.contains(q as u64) by {
                                if in_scope(dev@, sigs@, q, pos0, ws, p as int, ce) {
                                    let t = choose|t: int|
                                        0 <= t < seen0.len() && seen0[t] == q as u64;
                                    assert(seen@[t] == q as u64);
                                } else {
                                    assert(q == p as int);
                                    assert(seen@[seen0.len() as int] == p64);
                                }
                            }
                        }
                        let probe = build_probe(dev, p);
                        let sg = &sigs[k];
                        if validate_candidate(probe.as_slice(), sg) {
                            proof {
                                assert(valid_candidate(dev@, sigs@, p as int));
                                assert forall|t: int| 0 <= t < seen@.len() implies ((
                                #[trigger] seen@[t]) as int) < dev@.len() by {
                                    let q = seen@[t] as int;
                                    assert(in_scope(dev@, sigs@, q, pos0, ws, p + 1, ce));
                                    let i = match_idx(dev@, sigs@, q);
                                    assert(0 <= i < sigs@.len() && header_match(dev@, sigs@[i], q));
                                    assert(sig_wf(sigs@[i]));
                                }
                                lemma_distinct_below(seen@, dev@.len() as int);
                            }
                            let hl = sg.header.len();
                            let fstart = p + hl;
                            let rr = reconstruct_file(dev, fstart, sg);
                            let id: u32 = (out.len() + 1) as u32;
                            let tag = sg.type_tag.as_str().to_string();
                            let file = RecoveredFile { id, file_type: tag, size: rr.0, status: rr.1 };
                            out.push(Discovery { offset: p64, file });
                            proof {
                                assert(out@[out0.len() as int].offset == p64);
                                assert(match_end(dev@, sigs@, p as int) > pos0) by {
                                    if match_end(dev@, sigs@, p as int) <= pos0 {
                                        assert(in_scope(dev@, sigs@, p as int, pos0, ws, p as int, ce));
                                        assert(seen0.contains(p64));
                                    }
                                }
                                assert(discovery_ok(dev@, sigs@, out@[out0.len() as int]));
                                assert forall|j: int| 0 <= j < out0.len() implies (
                                #[trigger] out0[j]).offset != p64 by {
                                    assert(in_scope(dev@, sigs@, out0[j].offset as int, pos0, ws, p as int, ce));
                                    assert(seen0.contains(out0[j].offset));
                                }
                                assert forall|j: int| 0 <= j < out@.len() implies discovery_ok(
                                    dev@,
                                    sigs@,
                                    #[trigger] out@[j],
                                ) by {
                                    if j < out0.len() {
                                        assert(out@[j] == out0[j]);
                                        assert(discovery_ok(dev@, sigs@, out0[j]));
                                    }
                                }
                                assert forall|j: int| 0 <= j < out@.len() implies (
                                #[trigger] out@[j]).file.id == j + 1 by {
                                    if j < out0.len() {
                                        assert(out@[j] == out0[j]);
                                        assert(out0[j].file.id == j + 1);
                                    }
                                }
                                assert forall|j: int| 0 <= j < out@.len() implies in_scope(
                                    dev@,
                                    sigs@,
                                    (#[trigger] out@[j]).offset as int,
                                    pos0,
                                    ws,
                                    p + 1,
                                    ce,
                                ) by {
                                    if j < out0.len() {
                                        assert(out@[j] == out0[j]);
                                        assert(in_scope(dev@, sigs@, out0[j].offset as int, pos0, ws, p as int, ce));
                                    } else {
                                        assert(in_scope(dev@, sigs@, p as int, pos0, ws, p + 1, ce));
                                    }
                                }
                                assert forall|j1: int, j2: int|
                                    0 <= j1 < out@.len() && 0 <= j2 < out@.len() && j1
                                    != j2 implies (#[trigger] out@[j1]).offset != (
                                #[trigger] out@[j2]).offset by {
                                    if j1 < out0.len() && j2 < out0.len() {
                                        assert(out@[j1] == out0[j1]);
                                        assert(out@[j2] == out0[j2]);
                                    } else if j1 < out0.len() {
                                        assert(out@[j1] == out0[j1]);
                                        assert(out0[j1].offset != p64);
                                    } else if j2 < out0.len() {
                                        assert(out@[j2] == out0[j2]);
                                        assert(out0[j2].offset != p64);
                                    }
                                }
                                assert forall|q: int|
                                    #[trigger] in_scope(dev@, sigs@, q, pos0, ws, p + 1, ce)
                                    && valid_candidate(dev@, sigs@, q) implies exists|j: int|
                                    0 <= j < out@.len() && (#[trigger] out@[j]).offset == q by {
                                    if in_scope(dev@, sigs@, q, pos0, ws, p as int, ce) {
                                        let j = choose|j: int|
                                            0 <= j < out0.len() && (#[trigger] out0[j]).offset == q;
                                        assert(out@[j] == out0[j]);
                                        assert(out@[j].offset == q);
                                    } else {
                                        assert(q == p as int);
                                        assert(out@[out0.len() as int].offset == q);
                                    }
                                }
                                assert forall|j1: int, j2: int| 0 <= j1 < j2 < out@.len() implies ((
                                #[trigger] out@[j1]).offset < (#[trigger] out@[j2]).offset
                                    || match_end(dev@, sigs@, out@[j1].offset as int) < match_end(
                                    dev@,
                                    sigs@,
                                    out@[j2].offset as int,
                                )) by {
                                    assert(out@[j1] == out0[j1]);
                                    if j2 < out0.len() {
                                        assert(out@[j2] == out0[j2]);
                                    } else {
                                        assert(out@[j2].offset == p64);
                                        let q = out0[j1].offset as int;
                                        assert(in_scope(dev@, sigs@, q, pos0, ws, p as int, ce));
                                        if match_end(dev@, sigs@, q) > pos0 {
                                            assert(ws <= q < p as int);
                                        }
                                    }
                                }
                            }
                        } else {
                            proof {
                                assert(!valid_candidate(dev@, sigs@, p as int));
                                assert forall|j: int| 0 <= j < out@.len() implies in_scope(
                                    dev@,
                                    sigs@,
                                    (#[trigger] out@[j]).offset as int,
                                    pos0,
                                    ws,
                                    p + 1,
                                    ce,
                                ) by {
                                    assert(in_scope(dev@, sigs@, out@[j].offset as int, pos0, ws, p as int, ce));
                                }
                                assert forall|q: int|
                                    #[trigger] in_scope(dev@, sigs@, q, pos0, ws, p + 1, ce)
                                    && valid_candidate(dev@, sigs@, q) implies exists|j: int|
                                    0 <= j < out@.len() && (#[trigger] out@[j]).offset == q by {
                                    assert(q != p as int);
                                    assert(in_scope(dev@, sigs@, q, pos0, ws, p as int, ce));
                                }
                            }
                        }
                    } else {
                        proof {
                            let t = choose|t: int| 0 <= t < seen@.len() && seen@[t] == p64;
                            assert(in_scope(dev@, sigs@, seen@[t] as int, pos0, ws, p as int, ce));
                            assert(in_scope(dev@, sigs@, p as int, pos0, ws, p as int, ce));
                            assert forall|q: int|
                                #![trigger in_scope(dev@, sigs@, q, pos0, ws, p + 1, ce)]
                                #![trigger in_scope(dev@, sigs@, q, pos0, ws, p as int, ce)]
                                in_scope(dev@, sigs@, q, pos0, ws, p + 1, ce) <==> in_scope(
                                    dev@,
                                    sigs@,
                                    q,
                                    pos0,
                                    ws,
                                    p as int,
                                    ce,
                                ) by {}
                            lemma_state_reparam(
                                dev@,
                                sigs@,
                                seen@,
                                out@,
                                pos0,
                                ws,
                                p as int,
                                ce,
                                pos0,
                                ws,
                                p + 1,
                                ce,
                            );
                        }
                    }
                },
                None => {
                    proof {
                        assert forall|q: int|
                            #![trigger in_scope(dev@, sigs@, q, pos0, ws, p + 1, ce)]
                            #![trigger in_scope(dev@, sigs@, q, pos0, ws, p as int, ce)]
                            in_scope(dev@, sigs@, q, pos0, ws, p + 1, ce) <==> in_scope(
                                dev@,
                                sigs@,
                                q,
                                pos0,
                                ws,
                                p as int,
                                ce,
                            ) by {
                            if q == p as int && matched_at(dev@, sigs@, q) {
                                let i = match_idx(dev@, sigs@, q);
                                assert(0 <= i < sigs@.len() && header_match(dev@, sigs@[i], q));
                                lemma_match_is(dev@, sigs@, q, i);
                                if match_end(dev@, sigs@, q) <= ce {
                                    assert(p + sigs@[i].header@.len() <= chunk_end);
                                    assert(false);
                                }
                            }
                        }
                        lemma_state_reparam(
                            dev@,
                            sigs@,
                            seen@,
                            out@,
                            pos0,
                            ws,
                            p as int,
                            ce,
                            pos0,
                            ws,
                            p + 1,
                            ce,
                        );
                    }
                },
            }
            p += 1;
        }
        proof {
            assert forall|q: int|
                #![trigger in_scope(dev@, sigs@, q, ce, 0, 0, 0)]
                #![trigger in_scope(dev@, sigs@, q, pos0, ws, ce, ce)]
                in_scope(dev@, sigs@, q, ce, 0, 0, 0) <==> in_scope(dev@, sigs@, q, pos0, ws, ce, ce) by {
                if matched_at(dev@, sigs@, q) {
                    let i = match_idx(dev@, sigs@, q);
                    assert(0 <= i < sigs@.len() && header_match(dev@, sigs@[i], q));
                    assert(sigs@[i].header@.len() <= maxh);
                    assert(sig_wf(sigs@[i]));
                    lemma_match_is(dev@, sigs@, q, i);
                    if match_end(dev@, sigs@, q) > pos0 && match_end(dev@, sigs@, q) <= ce {
                        assert(q >= pos0 - maxh + 1);
                        assert(ws <= q < ce);
                    }
                }
            }
            lemma_state_reparam(dev@, sigs@, seen@, out@, pos0, ws, ce, ce, ce, 0, 0, 0);
        }
        pos = chunk_end;
    }
    out
}


/// Field-for-field agreement between recovered files and the files of a
/// discovery list.
pub open spec fn file_eq(a: RecoveredFile, b: RecoveredFile) -> bool {
    &&& a.id == b.id
    &&& a.file_type@ == b.file_type@
    &&& a.size == b.size
    &&& a.status == b.status
}

/// `out` carries exactly the files of `ds`, in order.
pub open spec fn files_match(out: Seq<RecoveredFile>, ds: Seq<Discovery>) -> bool {
    &&& out.len() == ds.len()
    &&& forall|j: int| 0 <= j < out.len() ==> file_eq(#[trigger] out[j], ds[j].file)
}

/// Scan a device image with the built-in registry and return the
/// recovered files in discovery order: there is a discovery list
/// satisfying the full scan contract over the built-in registry whose
/// files the result carries one for one.
#[verifier::loop_isolation(false)]
pub fn scan_disk(dev: &Vec<u8>) -> (r: Vec<RecoveredFile>)
    requires
        dev@.len() < 0x1_0000_0000,
    ensures
        exists|sigs: Seq<Signature>, ds: Seq<Discovery>|
            registry_wf(sigs) && sigs_wf(sigs) && #[trigger] scan_post(dev@, sigs, ds)
                && files_match(r@, ds),
        forall|j: int| 0 <= j < r@.len() ==> (#[trigger] r@[j]).id == j + 1,
{
    let sigs = signatures();
    let ds = scan_device(dev, &sigs);
    let mut r: Vec<RecoveredFile> = Vec::new();
    let mut i: usize = 0;
    while i < ds.len()
        invariant
            i <= ds@.len(),
            r@.len() == i,
            forall|j: int| 0 <= j < i ==> file_eq(#[trigger] r@[j], ds@[j].file),
        decreases ds@.len() - i,
    {
        let d = &ds[i];
        let f = RecoveredFile {
            id: d.file.id,
            file_type: d.file.file_type.as_str().to_string(),
            size: d.file.size,
            status: d.file.status,
        };
        r.push(f);
        i += 1;
    }
    proof {
        assert(files_match(r@, ds@));
        assert(scan_post(dev@, sigs@, ds@));
        assert forall|j: int| 0 <= j < r@.len() implies (#[trigger] r@[j]).id == j + 1 by {
            assert(file_eq(r@[j], ds@[j].file));
            assert(ds@[j].file.id == j + 1);
        }
    }
    r
}

} // verus!
