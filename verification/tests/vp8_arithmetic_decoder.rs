use vp8_entropy::vp8_arithmetic_decoder::ArithmeticDecoder;
use vp8_entropy::vp8::tree_nodes_from;
use vp8_entropy::vp8::TreeNode;
use vp8_entropy::DecodingError;

fn chunks_from(data: &[u8]) -> Vec<[u8; 4]> {
    let n = (data.len() + 3) / 4;
    let mut buf = vec![[0u8; 4]; n];
    for (i, &b) in data.iter().enumerate() {
        buf[i / 4][i % 4] = b;
    }
    buf
}

fn golden_tree() -> Vec<TreeNode> {
    tree_nodes_from(&[2, 4, 0, -1, -2, -3], &[100, 120, 140])
}

#[test]
fn test_arithmetic_decoder_hello_short() {
    let mut decoder = ArithmeticDecoder::new();
    let data = b"hel";
    let size = data.len();
    decoder.init(chunks_from(data), size).unwrap();
    let mut res = decoder.start_accumulated_result();
    assert_eq!(false, decoder.read_flag().or_accumulate(&mut res));
    assert_eq!(true, decoder.read_bool(10).or_accumulate(&mut res));
    assert_eq!(false, decoder.read_bool(250).or_accumulate(&mut res));
    assert_eq!(1, decoder.read_literal(1).or_accumulate(&mut res));
    assert_eq!(5, decoder.read_literal(3).or_accumulate(&mut res));
    assert_eq!(64, decoder.read_literal(8).or_accumulate(&mut res));
    assert_eq!(185, decoder.read_literal(8).or_accumulate(&mut res));
    decoder.check(res, ()).unwrap();
}

#[test]
fn test_arithmetic_decoder_hello_long() {
    let mut decoder = ArithmeticDecoder::new();
    let data = b"hello world";
    let size = data.len();
    decoder.init(chunks_from(data), size).unwrap();
    let tree = golden_tree();
    let mut res = decoder.start_accumulated_result();
    assert_eq!(false, decoder.read_flag().or_accumulate(&mut res));
    assert_eq!(true, decoder.read_bool(10).or_accumulate(&mut res));
    assert_eq!(false, decoder.read_bool(250).or_accumulate(&mut res));
    assert_eq!(1, decoder.read_literal(1).or_accumulate(&mut res));
    assert_eq!(5, decoder.read_literal(3).or_accumulate(&mut res));
    assert_eq!(64, decoder.read_literal(8).or_accumulate(&mut res));
    assert_eq!(185, decoder.read_literal(8).or_accumulate(&mut res));
    assert_eq!(31, decoder.read_literal(8).or_accumulate(&mut res));
    assert_eq!(2, decoder.read_with_tree(&tree).or_accumulate(&mut res));
    decoder.check(res, ()).unwrap();
}

#[test]
fn test_arithmetic_decoder_hello_cold_short() {
    let mut decoder = ArithmeticDecoder::new();
    let data = b"hel";
    let size = data.len();
    decoder.init(chunks_from(data), size).unwrap();
    let mut res = decoder.start_accumulated_result();
    assert_eq!(false, decoder.cold_read_flag().or_accumulate(&mut res));
    assert_eq!(true, decoder.cold_read_bool(10).or_accumulate(&mut res));
    assert_eq!(false, decoder.cold_read_bool(250).or_accumulate(&mut res));
    assert_eq!(1, decoder.cold_read_literal(1).or_accumulate(&mut res));
    assert_eq!(5, decoder.cold_read_literal(3).or_accumulate(&mut res));
    assert_eq!(64, decoder.cold_read_literal(8).or_accumulate(&mut res));
    assert_eq!(185, decoder.cold_read_literal(8).or_accumulate(&mut res));
    decoder.check(res, ()).unwrap();
}

#[test]
fn test_arithmetic_decoder_hello_cold_long() {
    let mut decoder = ArithmeticDecoder::new();
    let data = b"hello world";
    let size = data.len();
    decoder.init(chunks_from(data), size).unwrap();
    let tree = golden_tree();
    let mut res = decoder.start_accumulated_result();
    assert_eq!(false, decoder.cold_read_flag().or_accumulate(&mut res));
    assert_eq!(true, decoder.cold_read_bool(10).or_accumulate(&mut res));
    assert_eq!(false, decoder.cold_read_bool(250).or_accumulate(&mut res));
    assert_eq!(1, decoder.cold_read_literal(1).or_accumulate(&mut res));
    assert_eq!(5, decoder.cold_read_literal(3).or_accumulate(&mut res));
    assert_eq!(64, decoder.cold_read_literal(8).or_accumulate(&mut res));
    assert_eq!(185, decoder.cold_read_literal(8).or_accumulate(&mut res));
    assert_eq!(31, decoder.cold_read_literal(8).or_accumulate(&mut res));
    assert_eq!(2, decoder.cold_read_with_tree(&tree, 0).or_accumulate(&mut res));
    decoder.check(res, ()).unwrap();
}

#[test]
#[should_panic]
fn test_arithmetic_decoder_uninit() {
    let mut decoder = ArithmeticDecoder::new();
    let mut res = decoder.start_accumulated_result();
    let _ = decoder.read_flag().or_accumulate(&mut res);
    decoder.check(res, ()).unwrap()
}

#[test]
fn test_arithmetic_decoder_eof_boundary() {
    // An empty partition consumes its one tolerated phantom byte at init;
    // reads succeed until the primed bits are spent, then fail.
    let mut decoder = ArithmeticDecoder::new();
    decoder.init(Vec::new(), 0).unwrap();
    let mut res = decoder.start_accumulated_result();
    assert_eq!(false, decoder.read_flag().or_accumulate(&mut res));
    assert_eq!(false, decoder.read_flag().or_accumulate(&mut res));
    decoder.check(res, ()).unwrap();
    let mut res2 = decoder.start_accumulated_result();
    let _ = decoder.read_flag().or_accumulate(&mut res2);
    assert_eq!(decoder.check(res2, ()), Err(DecodingError::BitStreamError));
}

#[test]
fn test_arithmetic_decoder_not_enough_init_data() {
    let result = ArithmeticDecoder::initialized(Vec::new(), 7);
    assert!(matches!(result, Err(DecodingError::NotEnoughInitData)));
}

#[test]
fn test_arithmetic_decoder_optional_signed_alignment() {
    // A clear flag consumes exactly one bit: a decoder that read the optional
    // value and one that read only the flag stay in lockstep.
    let data = b"hello world";
    let mut d1 = ArithmeticDecoder::new();
    let mut d2 = ArithmeticDecoder::new();
    d1.init(chunks_from(data), data.len()).unwrap();
    d2.init(chunks_from(data), data.len()).unwrap();
    let mut r1 = d1.start_accumulated_result();
    let mut r2 = d2.start_accumulated_result();
    assert_eq!(0, d1.read_optional_signed_value(4).or_accumulate(&mut r1));
    assert_eq!(false, d2.read_flag().or_accumulate(&mut r2));
    assert_eq!(208, d1.read_literal(8).or_accumulate(&mut r1));
    assert_eq!(208, d2.read_literal(8).or_accumulate(&mut r2));
    d1.check(r1, ()).unwrap();
    d2.check(r2, ()).unwrap();
}

#[test]
fn test_arithmetic_decoder_optional_signed_set() {
    let mut decoder = ArithmeticDecoder::new();
    decoder.init(chunks_from(&[0xB0, 0, 0, 0]), 4).unwrap();
    let mut res = decoder.start_accumulated_result();
    assert_eq!(3, decoder.read_optional_signed_value(3).or_accumulate(&mut res));
    decoder.check(res, ()).unwrap();

    let mut negative = ArithmeticDecoder::new();
    negative.init(chunks_from(&[0xFF, 0xFF, 0xFF, 0xFF]), 4).unwrap();
    let mut res2 = negative.start_accumulated_result();
    assert_eq!(-7, negative.read_optional_signed_value(3).or_accumulate(&mut res2));
    negative.check(res2, ()).unwrap();
}
