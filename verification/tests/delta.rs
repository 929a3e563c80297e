use orf::storage::objects::delta::{apply_delta, Delta, DeltaError, DeltaOp};

#[test]
fn test_parse_header() {
    let data = [0x01, 0x01]; // base = 1, result = 1
    let mut parser = Delta::new(&data);
    assert_eq!(parser.parse_header().unwrap(), (1, 1));

    // Each size byte holds seven bits, low bits first; the top bit says
    // another byte follows. So [0x80, 0x01] is 128.
    let data = [0x80, 0x01, 0x80, 0x01];
    let mut parser = Delta::new(&data);
    assert_eq!(parser.parse_header().unwrap(), (128, 128));

    // 0x7F + (0x7F << 7) + (0x7F << 14) + (0x7F << 21) + (0x0F << 28) = 0xFFFFFFFF
    let data = [0xFF, 0xFF, 0xFF, 0xFF, 0x0F, 0xFF, 0xFF, 0xFF, 0xFF, 0x0F];
    let mut parser = Delta::new(&data);
    assert_eq!(
        parser.parse_header().unwrap(),
        (0xFFFFFFFF as usize, 0xFFFFFFFF as usize)
    );
}

#[test]
fn test_parse_copy() {
    // cmd 0x90: copy, no offset bytes, one length byte: length 5, offset 0.
    let data = [0x90, 0x05];
    let mut parser = Delta::new(&data);
    let ops = parser.parse_ops().unwrap();
    assert_eq!(ops.len(), 1);
    assert!(matches!(ops[0], DeltaOp::Copy { offset: 0, length: 5 }));

    // cmd 0xF0: three length bytes, all zero: length 0 stands for 64 KiB.
    let data = [0xF0, 0x00, 0x00, 0x00];
    let mut parser = Delta::new(&data);
    let ops = parser.parse_ops().unwrap();
    assert_eq!(ops.len(), 1);
    assert!(matches!(ops[0], DeltaOp::Copy { offset: 0, length: 0x10000 }));

    // cmd 0x91: one offset byte (6), one length byte (6).
    let data = [0x91, 0x06, 0x06];
    let mut parser = Delta::new(&data);
    let ops = parser.parse_ops().unwrap();
    assert_eq!(ops.len(), 1);
    assert!(matches!(ops[0], DeltaOp::Copy { offset: 6, length: 6 }));

    // cmd 0xFF: four offset bytes (1), three length bytes (0x80, 0x02, 0x00).
    let data = [0xFF, 0x01, 0x00, 0x00, 0x00, 0x80, 0x02, 0x00];
    let mut parser = Delta::new(&data);
    let ops = parser.parse_ops().unwrap();
    assert_eq!(ops.len(), 1);
    assert!(matches!(
        ops[0],
        DeltaOp::Copy {
            offset: 0x00000001,
            length: 0x00000280
        }
    ));
}

#[test]
fn test_parse_insert() {
    // Length 3, data "abc".
    let data = [0x03, b'a', b'b', b'c'];
    let mut parser = Delta::new(&data);
    let ops = parser.parse_ops().unwrap();
    assert_eq!(ops.len(), 1);
    if let DeltaOp::Insert(d) = &ops[0] {
        assert_eq!(d, b"abc");
    } else {
        panic!("Expected Insert operation");
    }

    // Length 2, data "ab", then length 3, data "cde".
    let data = [0x02, b'a', b'b', 0x03, b'c', b'd', b'e'];
    let mut parser = Delta::new(&data);
    let ops = parser.parse_ops().unwrap();
    assert_eq!(ops.len(), 2);
    if let DeltaOp::Insert(d1) = &ops[0] {
        assert_eq!(d1, b"ab");
    } else {
        panic!("Expected Insert operation at index 0");
    }
    if let DeltaOp::Insert(d2) = &ops[1] {
        assert_eq!(d2, b"cde");
    } else {
        panic!("Expected Insert operation at index 1");
    }
}

#[test]
fn test_apply_delta() {
    // Base and result are the same.
    let base = b"Hello world";
    let delta = [
        0x0B, 0x0B, // base_size = 11, result_size = 11
        0x90, 0x0B, // COPY offset = 0, length = 11
    ];
    let result = apply_delta(base, &delta).unwrap();
    assert_eq!(result, b"Hello world");

    // "Hello", then " w!" inserted at the end.
    let base = b"Hello";
    let delta = [
        0x05, 0x08, // base_size = 5, result_size = 8
        0x90, 0x05, // COPY offset = 0, length = 5
        0x03, b' ', b'w', b'!', // INSERT " w!"
    ];
    let result = apply_delta(base, &delta).unwrap();
    assert_eq!(result, b"Hello w!");

    // Two pieces copied from the base.
    let base = b"Hello world, welcome to orf";
    let delta = [
        0x1B, 0x0C, // base_size = 27, result_size = 12
        0x90, 0x06, // COPY offset = 0, length = 6
        0x91, 0x06, 0x06, // COPY offset = 6, length = 6
    ];
    let result = apply_delta(base, &delta).unwrap();
    assert_eq!(result, b"Hello world,");
}

#[test]
fn delta_base_size_mismatch_is_reported() {
    let base = b"Hello";
    let delta = [0x06, 0x05, 0x90, 0x05];
    assert_eq!(
        apply_delta(base, &delta),
        Err(DeltaError::BaseSizeMismatch { expected: 6, actual: 5 })
    );
}

#[test]
fn delta_copy_past_base_is_reported() {
    let base = b"Hello";
    let delta = [0x05, 0x06, 0x90, 0x06];
    assert!(matches!(
        apply_delta(base, &delta),
        Err(DeltaError::CopyOutOfRange { .. })
    ));
}

#[test]
fn delta_truncated_is_reported() {
    let mut parser = Delta::new(&[0x80]);
    assert_eq!(parser.parse_header(), Err(DeltaError::UnexpectedEnd));
}
