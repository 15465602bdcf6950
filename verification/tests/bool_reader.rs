use vp8_entropy::bool_reader::{BitResult, BoolReader};
use vp8_entropy::vp8::tree_nodes_from;
use vp8_entropy::DecodingError;

fn chunks_of(data: &[u8]) -> Vec<[u8; 4]> {
    let n = (data.len() + 3) / 4;
    let mut buf = vec![[0u8; 4]; n];
    for (i, &b) in data.iter().enumerate() {
        buf[i / 4][i % 4] = b;
    }
    buf
}

#[test]
fn test_bool_reader_hello_short() {
    let mut reader = BoolReader::new();
    let data = b"hel";
    let size = data.len();
    let buf = chunks_of(data);
    reader.init(buf, size).unwrap();
    let mut res = BitResult::OK;
    assert_eq!(false, reader.read_bool(128).or_accumulate(&mut res));
    assert_eq!(true, reader.read_bool(10).or_accumulate(&mut res));
    assert_eq!(false, reader.read_bool(250).or_accumulate(&mut res));
    assert_eq!(1, reader.read_literal(1).or_accumulate(&mut res));
    assert_eq!(5, reader.read_literal(3).or_accumulate(&mut res));
    assert_eq!(64, reader.read_literal(8).or_accumulate(&mut res));
    assert_eq!(185, reader.read_literal(8).or_accumulate(&mut res));
    reader.check(res, ()).unwrap();
}

#[test]
fn test_bool_reader_hello_long() {
    let mut reader = BoolReader::new();
    let data = b"hello world";
    let size = data.len();
    let buf = chunks_of(data);
    reader.init(buf, size).unwrap();
    let mut res = BitResult::OK;
    assert_eq!(false, reader.read_bool(128).or_accumulate(&mut res));
    assert_eq!(true, reader.read_bool(10).or_accumulate(&mut res));
    assert_eq!(false, reader.read_bool(250).or_accumulate(&mut res));
    assert_eq!(1, reader.read_literal(1).or_accumulate(&mut res));
    assert_eq!(5, reader.read_literal(3).or_accumulate(&mut res));
    assert_eq!(64, reader.read_literal(8).or_accumulate(&mut res));
    assert_eq!(185, reader.read_literal(8).or_accumulate(&mut res));
    assert_eq!(31, reader.read_literal(8).or_accumulate(&mut res));
    reader.check(res, ()).unwrap();
}

#[test]
fn test_bool_reader_uninit() {
    let mut reader = BoolReader::new();
    let mut res = BitResult::OK;
    let _ = reader.read_flag().or_accumulate(&mut res);
    let result = reader.check(res, ());
    assert!(result.is_err());
}

#[test]
fn test_bool_reader_tree() {
    let mut reader = BoolReader::new();
    let data = b"hello world";
    let size = data.len();
    reader.init(chunks_of(data), size).unwrap();
    let tree = tree_nodes_from(&[2, 4, 0, -1, -2, -3], &[100, 120, 140]);
    let mut res = BitResult::OK;
    assert_eq!(false, reader.read_bool(128).or_accumulate(&mut res));
    assert_eq!(true, reader.read_bool(10).or_accumulate(&mut res));
    assert_eq!(false, reader.read_bool(250).or_accumulate(&mut res));
    assert_eq!(1, reader.read_literal(1).or_accumulate(&mut res));
    assert_eq!(5, reader.read_literal(3).or_accumulate(&mut res));
    assert_eq!(64, reader.read_literal(8).or_accumulate(&mut res));
    assert_eq!(185, reader.read_literal(8).or_accumulate(&mut res));
    assert_eq!(31, reader.read_literal(8).or_accumulate(&mut res));
    assert_eq!(2, reader.read_with_tree(&tree, false).or_accumulate(&mut res));
    reader.check(res, ()).unwrap();
}

#[test]
fn test_bool_reader_tree_skip() {
    let mut reader = BoolReader::new();
    let data = b"hel";
    reader.init(chunks_of(data), data.len()).unwrap();
    let tree = tree_nodes_from(&[2, 4, 0, -1, -2, -3], &[100, 120, 140]);
    let mut res = BitResult::OK;
    assert_eq!(0, reader.read_with_tree(&tree, true).or_accumulate(&mut res));
    reader.check(res, ()).unwrap();
}

#[test]
fn test_bool_reader_magnitude_and_sign() {
    let mut reader = BoolReader::new();
    let data = b"hel";
    reader.init(chunks_of(data), data.len()).unwrap();
    let mut res = BitResult::OK;
    assert_eq!(-6, reader.read_magnitude_and_sign(4).or_accumulate(&mut res));
    reader.check(res, ()).unwrap();
}

#[test]
fn test_bool_reader_eof_boundary() {
    // An empty partition still supplies one implicit zero byte: reads succeed
    // until its bits are spent, and the next refill attempt fails.
    let mut reader = BoolReader::new();
    reader.init(Vec::new(), 0).unwrap();
    let r1 = reader.read_bool(128);
    assert_eq!(false, reader.check_directly(r1).unwrap());
    let r2 = reader.read_bool(128);
    assert_eq!(false, reader.check_directly(r2).unwrap());
    let r3 = reader.read_bool(128);
    let checked = reader.check_directly(r3);
    assert_eq!(checked, Err(DecodingError::BitStreamError));
}

#[test]
fn test_bool_reader_not_enough_init_data() {
    let mut reader = BoolReader::new();
    let result = reader.init(Vec::new(), 5);
    assert_eq!(result, Err(DecodingError::NotEnoughInitData));
}
