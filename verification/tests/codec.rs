use l2vec::vector::Vector;
use l2vec::errors::DecodeError;

fn bits_of(xs: &[f32]) -> Vec<u32> {
    xs.iter().map(|x| x.to_bits()).collect()
}

#[test]
fn test_str2vec() {
    let expected = Vector::from_bits(bits_of(&[1., 2., 3., 4., 5.]));
    let got = Vector::decode("[1., 2., 3., 4., 5.]").expect("decode failed");
    assert_eq!(expected, got);
}

#[test]
fn decode_simple_integers() {
    let got = Vector::decode("[1,2,3]").expect("decode failed");
    assert_eq!(got, Vector::from_bits(bits_of(&[1.0, 2.0, 3.0])));
}

#[test]
fn decode_empty_brackets_is_zero_length() {
    let got = Vector::decode("[]").expect("decode failed");
    assert_eq!(got.len(), 0);
}

#[test]
fn decode_trims_token_whitespace() {
    let got = Vector::decode("[ 1.5 ,\t-2.25 ]").expect("decode failed");
    assert_eq!(got, Vector::from_bits(bits_of(&[1.5, -2.25])));
}

#[test]
fn decode_missing_brackets() {
    assert_eq!(Vector::decode("1,2,3"), Err(DecodeError::MissingBrackets));
    assert_eq!(Vector::decode("[1,2,3"), Err(DecodeError::MissingBrackets));
    assert_eq!(Vector::decode("1,2,3]"), Err(DecodeError::MissingBrackets));
    assert_eq!(Vector::decode(""), Err(DecodeError::MissingBrackets));
}

#[test]
fn decode_bad_token() {
    assert_eq!(Vector::decode("[a]"), Err(DecodeError::BadToken));
    assert_eq!(Vector::decode("[1,,2]"), Err(DecodeError::BadToken));
    assert_eq!(Vector::decode("[1, 2, ]"), Err(DecodeError::BadToken));
    assert_eq!(Vector::decode("[ ]"), Err(DecodeError::BadToken));
}

#[test]
fn decode_non_ascii() {
    assert_eq!(Vector::decode("[\u{03c0}]"), Err(DecodeError::Encoding));
}

#[test]
fn encode_canonical_form() {
    let v = Vector::from_bits(bits_of(&[1.0, 2.0, 3.0]));
    assert_eq!(v.encode(), "[1, 2, 3]");
}

#[test]
fn encode_empty_vector() {
    let v = Vector::from_bits(Vec::new());
    assert_eq!(v.encode(), "[]");
}

#[test]
fn encode_then_decode_recovers_canonical_text() {
    let v = Vector::decode("[1,2,3]").expect("decode failed");
    let text = v.encode();
    assert_eq!(text, "[1, 2, 3]");
    let again = Vector::decode(&text).expect("decode failed");
    assert_eq!(again, v);
}

#[test]
fn round_trip_assorted_finite_values() {
    let values: [f32; 8] = [0.1, 1.5, -2.75, 1.0e30, -0.0, 3.4e38, 1.0e-45, -1.0e-38];
    let v = Vector::from_bits(bits_of(&values));
    let text = v.encode();
    let back = Vector::decode(&text).expect("decode failed");
    assert_eq!(back, v);
    for (i, x) in values.iter().enumerate() {
        assert_eq!(back.get(i), x.to_bits());
    }
}

#[test]
fn preview_truncates_to_three_elements() {
    let v = Vector::from_bits(bits_of(&[1.0, 2.0, 3.0, 4.0, 5.0]));
    assert_eq!(v.preview(), "[1, 2, 3, ...]");
    let w = Vector::from_bits(bits_of(&[7.0]));
    assert_eq!(w.preview(), "[7, ...]");
    let e = Vector::from_bits(Vec::new());
    assert_eq!(e.preview(), "[...]");
}

#[test]
fn dump_shows_every_element() {
    let v = Vector::from_bits(bits_of(&[1.0, 2.0, 3.0, 4.0]));
    assert_eq!(v.dump(), "[1,2,3,4,...]");
}
