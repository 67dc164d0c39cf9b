use mgi_pulse::engine::record::RecordBytes;
use mgi_pulse::io::file::FileProducer;
use mgi_pulse::io::RecordProducer;

#[test]
fn emits_one_record_per_line() {
    let body = b"{\"a\":1}\n{\"a\":2}\n{\"a\":3}\n";
    let mut prod = FileProducer::new(body, 0);
    let r1 = prod.next().unwrap();
    let r2 = prod.next().unwrap();
    let r3 = prod.next().unwrap();
    assert!(prod.next().is_none());
    match (r1.bytes, r2.bytes, r3.bytes) {
        (
            RecordBytes::FileRef { offset: o1, len: l1, .. },
            RecordBytes::FileRef { offset: o2, len: l2, .. },
            RecordBytes::FileRef { offset: o3, len: l3, .. },
        ) => {
            assert_eq!((o1, l1), (0, 7));
            assert_eq!((o2, l2), (8, 7));
            assert_eq!((o3, l3), (16, 7));
        }
        _ => panic!("expected FileRef"),
    }
}

#[test]
fn last_line_without_trailing_newline_is_emitted() {
    let body = b"{\"a\":1}\n{\"a\":2}";
    let mut prod = FileProducer::new(body, 0);
    let _r1 = prod.next().unwrap();
    let r2 = prod.next().unwrap();
    assert!(prod.next().is_none());
    match r2.bytes {
        RecordBytes::FileRef { offset, len, .. } => {
            assert_eq!((offset, len), (8, 7));
        }
        _ => panic!(),
    }
}

#[test]
fn empty_lines_are_skipped() {
    let body = b"{\"a\":1}\n\n{\"a\":2}\n\n";
    let mut prod = FileProducer::new(body, 0);
    let r1 = prod.next().unwrap();
    let r2 = prod.next().unwrap();
    assert!(prod.next().is_none());
    assert_eq!(r1.line_id, 0);
    assert_eq!(r2.line_id, 1);
}
