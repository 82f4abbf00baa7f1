use carver::reconstruct::{reconstruct_file, RecoveryStatus};
use carver::registry::{signatures, SigKind, Signature};
use carver::scan::{scan_device, scan_disk};
use carver::validate::{validate_jpg, validate_png};

fn jpg_start() -> Vec<u8> {
    vec![0xFF, 0xD8, 0xFF, 0xE0]
}

fn png_header() -> Vec<u8> {
    vec![0x89, 0x50, 0x4E, 0x47, 0x0D, 0x0A, 0x1A, 0x0A]
}

#[test]
fn jpeg_followed_by_footer_recovered_whole() {
    // FF D8 FF E0, 50 bytes of filler, FF D9, 10 trailing bytes, all in
    // one chunk: one discovery, type jpg, recovered whole, size 3 + 63.
    let mut dev = jpg_start();
    dev.extend(std::iter::repeat(0x11).take(50));
    dev.extend([0xFF, 0xD9]);
    dev.extend(std::iter::repeat(0x22).take(10));
    assert_eq!(dev.len(), 66);
    let files = scan_disk(&dev);
    assert_eq!(files.len(), 1);
    assert_eq!(files[0].id, 1);
    assert!(files[0].file_type == "jpg");
    assert!(files[0].status == RecoveryStatus::RecoveredOk);
    assert_eq!(files[0].size, 66);
}

#[test]
fn png_header_without_ihdr_rejected() {
    let mut dev = png_header();
    dev.extend([0, 0, 0, 13]);
    dev.extend(*b"XXXX");
    dev.extend(std::iter::repeat(0u8).take(40));
    let files = scan_disk(&dev);
    assert_eq!(files.len(), 0);
}

#[test]
fn png_with_ihdr_recovered() {
    let mut dev = png_header();
    dev.extend([0, 0, 0, 13]);
    dev.extend(*b"IHDR");
    dev.extend(std::iter::repeat(0x33u8).take(30));
    dev.extend(*b"IEND");
    dev.extend(std::iter::repeat(0x44u8).take(6));
    let files = scan_disk(&dev);
    assert_eq!(files.len(), 1);
    assert!(files[0].file_type == "png");
    assert!(files[0].status == RecoveryStatus::RecoveredOk);
    assert_eq!(files[0].size, dev.len() as u64);
}

#[test]
fn header_split_across_chunk_boundary_found_once() {
    // Two of the three JPEG header bytes fall at the end of the first
    // 4096-byte chunk and the third in the next chunk; the carry-over
    // window must still find it, exactly once.
    let mut dev = vec![0u8; 4094];
    dev.extend(jpg_start());
    dev.extend(std::iter::repeat(0x11).take(50));
    dev.extend([0xFF, 0xD9]);
    dev.extend(std::iter::repeat(0x22).take(10));
    assert_eq!(dev.len(), 4160);
    let found = scan_device(&dev, &signatures());
    assert_eq!(found.len(), 1);
    assert_eq!(found[0].offset, 4094);
    assert!(found[0].file.status == RecoveryStatus::RecoveredOk);
    assert_eq!(found[0].file.size, 66);
}

#[test]
fn header_near_boundary_not_duplicated() {
    // A header a few bytes before the chunk boundary is visible both in
    // the first window and, through the carry-over, in the second: the
    // dedup set must keep it to a single discovery.
    let mut dev = vec![0u8; 4090];
    dev.extend(jpg_start());
    dev.extend(std::iter::repeat(0x11).take(50));
    dev.extend([0xFF, 0xD9]);
    dev.extend(std::iter::repeat(0x22).take(10));
    let found = scan_device(&dev, &signatures());
    assert_eq!(found.len(), 1);
    assert_eq!(found[0].offset, 4090);
    assert_eq!(found[0].file.id, 1);
}

#[test]
fn rejected_probe_gives_no_discovery_and_keeps_numbering() {
    // A JPEG header with a wrong marker byte is rejected by the probe
    // check; the later genuine file still gets serial number one.
    let mut dev = vec![0xFF, 0xD8, 0xFF, 0x00];
    dev.extend(std::iter::repeat(0u8).take(36));
    assert_eq!(dev.len(), 40);
    dev.extend(jpg_start());
    dev.extend(std::iter::repeat(0x11).take(20));
    dev.extend([0xFF, 0xD9]);
    dev.extend(std::iter::repeat(0x22).take(5));
    let found = scan_device(&dev, &signatures());
    assert_eq!(found.len(), 1);
    assert_eq!(found[0].offset, 40);
    assert_eq!(found[0].file.id, 1);
}

#[test]
fn no_footer_reports_partial() {
    let mut dev = jpg_start();
    dev.extend(std::iter::repeat(0u8).take(100));
    assert_eq!(dev.len(), 104);
    let files = scan_disk(&dev);
    assert_eq!(files.len(), 1);
    assert!(files[0].status == RecoveryStatus::RecoveredPartial);
    assert_eq!(files[0].size, 104);
}

#[test]
fn cap_exceeded_reports_corrupted() {
    // More data after the header than the cap leaves room for, and no
    // footer anywhere: reconstruction stops just past the cap.
    let mut dev = vec![0u8; 104_857_700];
    dev[0] = 0xFF;
    dev[1] = 0xD8;
    dev[2] = 0xFF;
    dev[3] = 0xE0;
    let sigs = signatures();
    let (size, status) = reconstruct_file(&dev, 3, &sigs[0]);
    assert!(status == RecoveryStatus::RecoveredCorrupted);
    assert_eq!(size, 104_857_603);
    assert!(size > 100 * 1024 * 1024);
}

#[test]
fn empty_device_yields_nothing() {
    let dev: Vec<u8> = Vec::new();
    let files = scan_disk(&dev);
    assert_eq!(files.len(), 0);
}

#[test]
fn two_instances_numbered_in_order() {
    let mut dev = jpg_start();
    dev.extend(std::iter::repeat(0x11).take(50));
    dev.extend([0xFF, 0xD9]);
    dev.extend(std::iter::repeat(0u8).take(44));
    assert_eq!(dev.len(), 100);
    dev.extend([0xFF, 0xD8, 0xFF, 0xE1]);
    dev.extend(std::iter::repeat(0x11).take(30));
    dev.extend([0xFF, 0xD9]);
    dev.extend(std::iter::repeat(0x22).take(14));
    assert_eq!(dev.len(), 150);
    let found = scan_device(&dev, &signatures());
    assert_eq!(found.len(), 2);
    assert_eq!(found[0].offset, 0);
    assert_eq!(found[0].file.id, 1);
    assert!(found[0].file.status == RecoveryStatus::RecoveredOk);
    assert_eq!(found[0].file.size, 150);
    assert_eq!(found[1].offset, 100);
    assert_eq!(found[1].file.id, 2);
    assert!(found[1].file.status == RecoveryStatus::RecoveredOk);
    assert_eq!(found[1].file.size, 50);
}

#[test]
fn generic_signature_accepts_without_probe() {
    // A kind with no secondary check accepts every header hit, and with
    // no footer configured the verdict can never be a full recovery.
    let sig = Signature {
        kind: SigKind::Generic,
        type_tag: "bin".to_string(),
        header: vec![0xAA, 0xBB],
        footer: None,
    };
    let mut dev = vec![0xAA, 0xBB];
    dev.extend(std::iter::repeat(0xCCu8).take(20));
    let found = scan_device(&dev, &vec![sig]);
    assert_eq!(found.len(), 1);
    assert_eq!(found[0].offset, 0);
    assert!(found[0].file.file_type == "bin");
    assert!(found[0].file.status == RecoveryStatus::RecoveredPartial);
    assert_eq!(found[0].file.size, 22);
}

#[test]
fn footer_split_across_chunks_is_missed() {
    // The footer search never looks across a reconstruction chunk
    // boundary: a footer split over two chunks is not seen, and the
    // candidate is reported partial instead.
    let mut dev = vec![0u8; 5000];
    dev[0] = 0xFF;
    dev[1] = 0xD8;
    dev[2] = 0xFF;
    dev[3] = 0xE0;
    // reconstruction reads chunks from position 3: the first chunk ends
    // at 4099, so a footer over positions 4098..4100 is split
    dev[4098] = 0xFF;
    dev[4099] = 0xD9;
    let files = scan_disk(&dev);
    assert_eq!(files.len(), 1);
    assert!(files[0].status == RecoveryStatus::RecoveredPartial);
    assert_eq!(files[0].size, 5000);
}

#[test]
fn validate_jpg_checks_marker() {
    let mut ok = vec![0xFF, 0xD8, 0xFF, 0xE0];
    ok.extend(std::iter::repeat(0u8).take(28));
    assert!(validate_jpg(&ok));
    ok[3] = 0xE1;
    assert!(validate_jpg(&ok));
    ok[3] = 0xD9;
    assert!(!validate_jpg(&ok));
    assert!(!validate_jpg(&[0xFF, 0xD8, 0xFF]));
}

#[test]
fn validate_png_checks_ihdr() {
    let mut ok = png_header();
    ok.extend([0, 0, 0, 13]);
    ok.extend(*b"IHDR");
    ok.extend(std::iter::repeat(0u8).take(16));
    assert!(validate_png(&ok));
    ok[12] = b'J';
    assert!(!validate_png(&ok));
    assert!(!validate_png(&ok[..10]));
}
