use std::io::Write;

use mgi_pulse::cli::{intake, Intake};
use mgi_pulse::io::compressed::Compression;

fn head(bytes: &[u8]) -> &[u8] {
    &bytes[..4]
}

#[test]
fn detects_plain_when_no_magic() {
    assert_eq!(
        Compression::detect(head(b"just text\nmore text\n")),
        Compression::Plain
    );
    assert_eq!(Compression::detect(b""), Compression::Plain);
    assert_eq!(Compression::detect(&[0x1f]), Compression::Plain);
}

#[test]
fn detects_gzip_by_magic() {
    let mut buf = Vec::new();
    let mut enc = flate2::write::GzEncoder::new(&mut buf, flate2::Compression::default());
    enc.write_all(b"line one\nline two\n").unwrap();
    drop(enc);
    assert_eq!(Compression::detect(head(&buf)), Compression::Gzip);
}

#[test]
fn detects_zstd_by_magic() {
    let encoded = zstd::stream::encode_all(&b"alpha\nbeta\n"[..], 3).unwrap();
    assert_eq!(Compression::detect(head(&encoded)), Compression::Zstd);
}

#[test]
fn intake_goes_by_magic_shape_and_size() {
    assert_eq!(intake(&[0x1f, 0x8b, 8, 0], 10), Intake::Stream);
    assert_eq!(intake(b"{\"a\":1}", 10), Intake::Lines);
    assert_eq!(intake(b" [ {\"a\":1}", 67_108_864), Intake::Array);
    assert_eq!(intake(b"[{\"a\":1}", 67_108_865), Intake::OversizeArray);
}
