use candle_core::{DType, Device, Tensor};
use remote_layers::codec::{deserialize_tensor, is_readable, serialize_tensor};
use remote_layers::le::{push_le, read_le};
use remote_layers::ops::TensorError;
use remote_layers::wire::{
    decode_len, decode_range, encode_header, encode_len, RequestHeader, CMD_COMPUTE, CMD_RESET,
    HEADER_LEN,
};

fn matrix() -> Tensor {
    Tensor::from_vec(vec![1.0f32, 2.0, 3.0, -4.0, 0.5, 6.0], (2, 3), &Device::Cpu).unwrap()
}

fn words(t: &Tensor) -> Vec<u32> {
    t.flatten_all()
        .unwrap()
        .to_vec1::<f32>()
        .unwrap()
        .iter()
        .map(|x| x.to_bits())
        .collect()
}

#[test]
fn numbers_are_written_least_significant_byte_first() {
    let mut buf = vec![9u8];
    push_le(&mut buf, 0x0102_0304, 4);
    push_le(&mut buf, 258, 8);
    assert_eq!(buf, vec![9, 4, 3, 2, 1, 2, 1, 0, 0, 0, 0, 0, 0]);
    assert_eq!(read_le(&buf, 1, 4), 0x0102_0304);
    assert_eq!(read_le(&buf, 5, 8), 258);
    assert_eq!(read_le(&buf, 3, 0), 0);
}

#[test]
fn header_has_its_fixed_layout() {
    let h = RequestHeader {
        cmd: CMD_COMPUTE,
        layer_start: 8,
        layer_end: 23,
        past_kv: 0x0A0B,
        payload_len: 40,
    };
    let bytes = encode_header(&h);
    assert_eq!(bytes.len(), HEADER_LEN);
    assert_eq!(
        bytes,
        vec![
            0, 8, 0, 0, 0, 23, 0, 0, 0, 0x0B, 0x0A, 0, 0, 0, 0, 0, 0, 40, 0, 0, 0, 0, 0, 0, 0
        ]
    );
    assert_eq!(decode_range(&bytes[1..17]), (8, 23, 0x0A0B));
    assert_eq!(decode_len(&bytes[17..25]), 40);
}

#[test]
fn commands_have_their_bytes() {
    assert_eq!(CMD_COMPUTE, 0x00);
    assert_eq!(CMD_RESET, 0x01);
}

#[test]
fn length_is_written_in_eight_bytes() {
    assert_eq!(encode_len(513), vec![1, 2, 0, 0, 0, 0, 0, 0]);
    assert_eq!(decode_len(&encode_len(513)), 513);
}

#[test]
fn tensor_has_its_layout() {
    let bytes = serialize_tensor(&matrix()).unwrap();
    let mut expected: Vec<u8> = Vec::new();
    expected.extend_from_slice(&6u64.to_le_bytes());
    expected.extend_from_slice(&2u64.to_le_bytes());
    expected.extend_from_slice(&2u64.to_le_bytes());
    expected.extend_from_slice(&3u64.to_le_bytes());
    for x in [1.0f32, 2.0, 3.0, -4.0, 0.5, 6.0] {
        expected.extend_from_slice(&x.to_le_bytes());
    }
    assert_eq!(bytes, expected);
}

#[test]
fn written_tensor_is_read_back() {
    let t = matrix();
    let back = deserialize_tensor(&serialize_tensor(&t).unwrap(), &Device::Cpu).unwrap();
    assert_eq!(back.dims(), t.dims());
    assert_eq!(back.dtype(), DType::F32);
    assert_eq!(words(&back), words(&t));
}

#[test]
fn bit_patterns_survive() {
    let t = Tensor::from_vec(
        vec![f32::NAN, f32::INFINITY, -0.0, f32::MIN_POSITIVE / 2.0],
        4,
        &Device::Cpu,
    )
    .unwrap();
    let back = deserialize_tensor(&serialize_tensor(&t).unwrap(), &Device::Cpu).unwrap();
    assert_eq!(words(&back), words(&t));
}

#[test]
fn elements_are_written_in_row_major_order() {
    let t = matrix().t().unwrap();
    let back = deserialize_tensor(&serialize_tensor(&t).unwrap(), &Device::Cpu).unwrap();
    assert_eq!(back.dims(), &[3, 2]);
    assert_eq!(
        back.to_vec2::<f32>().unwrap(),
        vec![vec![1.0, -4.0], vec![2.0, 0.5], vec![3.0, 6.0]]
    );
}

#[test]
fn other_element_types_are_written_as_floats() {
    let t = Tensor::from_vec(vec![1u32, 2, 3], 3, &Device::Cpu).unwrap();
    let back = deserialize_tensor(&serialize_tensor(&t).unwrap(), &Device::Cpu).unwrap();
    assert_eq!(back.to_vec1::<f32>().unwrap(), vec![1.0, 2.0, 3.0]);
}

#[test]
fn single_number_has_no_dimensions() {
    let t = Tensor::new(2.5f32, &Device::Cpu).unwrap();
    let bytes = serialize_tensor(&t).unwrap();
    assert_eq!(bytes.len(), 20);
    let back = deserialize_tensor(&bytes, &Device::Cpu).unwrap();
    assert_eq!(back.dims(), &[] as &[usize]);
    assert_eq!(back.to_scalar::<f32>().unwrap(), 2.5);
}

#[test]
fn bytes_beyond_the_tensor_are_left_alone() {
    let mut bytes = serialize_tensor(&matrix()).unwrap();
    bytes.extend_from_slice(&[7, 7, 7]);
    let back = deserialize_tensor(&bytes, &Device::Cpu).unwrap();
    assert_eq!(words(&back), words(&matrix()));
}

#[test]
fn short_buffer_is_refused() {
    let bytes = serialize_tensor(&matrix()).unwrap();
    let cut = &bytes[..bytes.len() - 1];
    assert!(is_readable(cut));
    match deserialize_tensor(cut, &Device::Cpu) {
        Err(TensorError::ShortBuffer { expected, got }) => {
            assert_eq!(expected, 56);
            assert_eq!(got, 55);
        }
        other => panic!("unexpected {other:?}"),
    }
}

#[test]
fn element_count_has_to_match_the_dimensions() {
    let mut bytes = serialize_tensor(&matrix()).unwrap();
    bytes[0] = 5;
    assert!(matches!(
        deserialize_tensor(&bytes, &Device::Cpu),
        Err(TensorError::Candle(_))
    ));
}

#[test]
fn huge_dimensions_are_refused() {
    let mut bytes: Vec<u8> = Vec::new();
    push_le(&mut bytes, 0, 8);
    push_le(&mut bytes, 2, 8);
    push_le(&mut bytes, 1 << 62, 8);
    push_le(&mut bytes, 1 << 62, 8);
    assert!(is_readable(&bytes));
    assert!(matches!(
        deserialize_tensor(&bytes, &Device::Cpu),
        Err(TensorError::TooLarge)
    ));
}

#[test]
fn readable_bytes_hold_their_dimensions() {
    assert!(!is_readable(&[0; 15]));
    assert!(is_readable(&[0; 16]));
    let mut bytes: Vec<u8> = Vec::new();
    push_le(&mut bytes, 1, 8);
    push_le(&mut bytes, 1, 8);
    assert!(!is_readable(&bytes));
    push_le(&mut bytes, 1, 8);
    assert!(is_readable(&bytes));
    let mut too_many: Vec<u8> = Vec::new();
    push_le(&mut too_many, u64::MAX / 2, 8);
    push_le(&mut too_many, 0, 8);
    assert!(!is_readable(&too_many));
}

#[test]
fn a_large_dimension_may_stand_beside_none() {
    let mut bytes: Vec<u8> = Vec::new();
    push_le(&mut bytes, 0, 8);
    push_le(&mut bytes, 2, 8);
    push_le(&mut bytes, 1 << 62, 8);
    push_le(&mut bytes, 0, 8);
    let x = deserialize_tensor(&bytes, &Device::Cpu).unwrap();
    assert_eq!(x.dims(), &[1usize << 62, 0]);
    assert_eq!(serialize_tensor(&x).unwrap(), bytes);
}

#[test]
fn empty_tensors_are_written_wherever_they_lie() {
    let x = matrix().narrow(0, 2, 0).unwrap().narrow(1, 3, 0).unwrap();
    let bytes = serialize_tensor(&x).unwrap();
    assert_eq!(deserialize_tensor(&bytes, &Device::Cpu).unwrap().dims(), &[0, 0]);
}
