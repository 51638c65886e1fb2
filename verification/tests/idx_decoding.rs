use mnist_prep::idx::{
    decode, decode_images, decode_labels, IdxError, ImageSet, RecordKind, IMAGE_MAGIC,
    LABEL_MAGIC,
};

fn word(v: u32) -> Vec<u8> {
    v.to_be_bytes().to_vec()
}

fn label_container(labels: &[u8]) -> Vec<u8> {
    let mut bytes: Vec<u8> = word(LABEL_MAGIC);
    bytes.extend(word(labels.len() as u32));
    bytes.extend_from_slice(labels);
    bytes
}

fn image_container(count: u32, rows: u32, cols: u32, pixels: &[u8]) -> Vec<u8> {
    let mut bytes: Vec<u8> = word(IMAGE_MAGIC);
    bytes.extend(word(count));
    bytes.extend(word(rows));
    bytes.extend(word(cols));
    bytes.extend_from_slice(pixels);
    bytes
}

#[test]
fn magic_numbers_are_the_idx_tags() {
    assert_eq!(LABEL_MAGIC, 0x0000_0801);
    assert_eq!(IMAGE_MAGIC, 0x0000_0803);
}

#[test]
fn labels_round_trip() {
    let written: Vec<u8> = vec![5, 0, 4, 1, 9, 2, 1, 3, 1, 4];
    let bytes = label_container(&written);
    let labels = decode_labels(&bytes).unwrap();
    assert_eq!(labels.len(), written.len());
    assert_eq!(labels, written);
}

#[test]
fn labels_are_numbers_not_characters() {
    let bytes: Vec<u8> = vec![0, 0, 8, 1, 0, 0, 0, 3, 0, 7, 9];
    assert_eq!(decode_labels(&bytes), Ok(vec![0u8, 7u8, 9u8]));
}

#[test]
fn labels_round_trip_for_every_byte_value() {
    let written: Vec<u8> = (0u16..256).map(|v| v as u8).collect();
    let bytes = label_container(&written);
    assert_eq!(decode_labels(&bytes), Ok(written));
}

#[test]
fn empty_label_container_decodes_to_nothing() {
    let bytes = label_container(&[]);
    assert_eq!(decode_labels(&bytes), Ok(Vec::new()));
}

#[test]
fn labels_count_is_read_big_endian() {
    let written: Vec<u8> = vec![3; 258];
    let bytes = label_container(&written);
    assert_eq!(&bytes[4..8], &[0u8, 0, 1, 2]);
    assert_eq!(decode_labels(&bytes).unwrap().len(), 258);
}

#[test]
fn labels_after_the_declared_count_are_left_unread() {
    let mut bytes = label_container(&[1, 2, 3]);
    bytes.extend_from_slice(&[7, 7]);
    assert_eq!(decode_labels(&bytes), Ok(vec![1u8, 2, 3]));
}

#[test]
fn short_label_header_is_a_truncated_read() {
    let bytes: Vec<u8> = vec![0, 0, 8, 1, 0];
    assert_eq!(decode_labels(&bytes), Err(IdxError::TruncatedRead { needed: 8, available: 5 }));
    assert_eq!(decode_labels(&[]), Err(IdxError::TruncatedRead { needed: 8, available: 0 }));
}

#[test]
fn short_header_is_judged_before_the_magic() {
    let bytes: Vec<u8> = vec![9, 9, 9, 9, 0, 0];
    assert_eq!(decode_labels(&bytes), Err(IdxError::TruncatedRead { needed: 8, available: 6 }));
    assert_eq!(decode_images(&bytes), Err(IdxError::TruncatedRead { needed: 16, available: 6 }));
}

#[test]
fn short_label_body_is_a_truncated_read() {
    let mut bytes = label_container(&[1, 2, 3]);
    bytes.pop();
    assert_eq!(decode_labels(&bytes), Err(IdxError::TruncatedRead { needed: 11, available: 10 }));
}

#[test]
fn wrong_label_magic_is_a_format_mismatch() {
    let mut bytes = label_container(&[1, 2, 3]);
    bytes[3] = 3;
    assert_eq!(
        decode_labels(&bytes),
        Err(IdxError::FormatMismatch { expected: 2049, found: 2051 })
    );
    bytes[0] = 0xff;
    assert_eq!(
        decode_labels(&bytes),
        Err(IdxError::FormatMismatch { expected: 2049, found: 0xff00_0803 })
    );
}

#[test]
fn images_round_trip() {
    let pixels: Vec<u8> = vec![0, 1, 2, 3, 4, 5, 250, 251, 252, 253, 254, 255];
    let bytes = image_container(2, 3, 2, &pixels);
    let set = decode_images(&bytes).unwrap();
    assert_eq!(set, ImageSet { count: 2, rows: 3, cols: 2, pixels: pixels.clone() });
    assert_eq!(set.pixels.len(), set.count * set.rows * set.cols);
}

#[test]
fn decoded_sizes_match_the_headers() {
    let count: u32 = 5;
    let rows: u32 = 4;
    let cols: u32 = 3;
    let pixels: Vec<u8> = (0u8..60).collect();
    let labels: Vec<u8> = vec![0, 1, 2, 3, 4];
    let set = decode_images(&image_container(count, rows, cols, &pixels)).unwrap();
    let decoded = decode_labels(&label_container(&labels)).unwrap();
    assert_eq!(decoded.len(), set.count);
    assert_eq!(set.pixels.len(), 60);
    assert_eq!(set.pixels.len(), decoded.len() * set.rows * set.cols);
}

#[test]
fn image_container_without_images_decodes() {
    let bytes = image_container(0, 28, 28, &[]);
    assert_eq!(
        decode_images(&bytes),
        Ok(ImageSet { count: 0, rows: 28, cols: 28, pixels: Vec::new() })
    );
}

#[test]
fn short_image_header_is_a_truncated_read() {
    let bytes = image_container(1, 1, 1, &[]);
    assert_eq!(
        decode_images(&bytes[..15]),
        Err(IdxError::TruncatedRead { needed: 16, available: 15 })
    );
}

#[test]
fn short_image_body_is_a_truncated_read() {
    let bytes = image_container(2, 2, 2, &[1, 2, 3, 4, 5, 6, 7]);
    assert_eq!(decode_images(&bytes), Err(IdxError::TruncatedRead { needed: 24, available: 23 }));
}

#[test]
fn huge_declared_image_body_is_a_truncated_read() {
    let bytes = image_container(u32::MAX, u32::MAX, u32::MAX, &[1, 2, 3]);
    assert_eq!(
        decode_images(&bytes),
        Err(IdxError::TruncatedRead { needed: 79228162458924105385300197391, available: 19 })
    );
}

#[test]
fn wrong_image_magic_is_a_format_mismatch() {
    let bytes = label_container(&[0, 0, 0, 0, 0, 0, 0, 0]);
    assert_eq!(
        decode_images(&bytes),
        Err(IdxError::FormatMismatch { expected: 2051, found: 2049 })
    );
}

#[test]
fn images_after_the_declared_count_are_left_unread() {
    let bytes = image_container(1, 1, 2, &[8, 9, 10, 11]);
    assert_eq!(decode_images(&bytes).unwrap().pixels, vec![8u8, 9]);
}

#[test]
fn decode_by_kind_gives_the_flat_records() {
    let labels = label_container(&[4, 2]);
    let images = image_container(2, 1, 2, &[1, 2, 3, 4]);
    assert_eq!(decode(&labels, RecordKind::Labels), Ok(vec![4u8, 2]));
    assert_eq!(decode(&images, RecordKind::Images), Ok(vec![1u8, 2, 3, 4]));
    assert_eq!(
        decode(&labels, RecordKind::Images),
        Err(IdxError::TruncatedRead { needed: 16, available: 10 })
    );
    assert_eq!(
        decode(&images, RecordKind::Labels),
        Err(IdxError::FormatMismatch { expected: 2049, found: 2051 })
    );
}
