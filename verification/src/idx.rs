//! Decoding of IDX containers: a header of big-endian 32-bit words followed
//! by a flat run of fixed-size records.

use vstd::prelude::*;

verus! {

/// Type tag that opens a label container.
pub const LABEL_MAGIC: u32 = 2049;

/// Type tag that opens an image container.
pub const IMAGE_MAGIC: u32 = 2051;

/// Bytes taken by the header of a label container: tag and count.
pub const LABEL_HEADER_LEN: usize = 8;

/// Bytes taken by the header of an image container: tag, count, rows, columns.
pub const IMAGE_HEADER_LEN: usize = 16;

/// Why a container could not be decoded.
#[derive(Debug, Clone, Copy, PartialEq, Eq)]
pub enum IdxError {
    /// The input ends before the header, or before the records the header
    /// declares. `needed` is the length a complete container would have.
    TruncatedRead { needed: u128, available: u128 },
    /// The first header word is not the tag of the requested record kind.
    FormatMismatch { expected: u32, found: u32 },
}

/// Which of the two containers is asked for.
#[derive(Debug, Clone, Copy, PartialEq, Eq)]
pub enum RecordKind {
    Images,
    Labels,
}

/// Pixels of a decoded image container, row-major, one image after another.
#[derive(Debug, Clone, PartialEq, Eq)]
pub struct ImageSet {
    pub count: usize,
    pub rows: usize,
    pub cols: usize,
    pub pixels: Vec<u8>,
}

impl ImageSet {
    /// The pixel run holds exactly `count` images of `rows * cols` bytes.
    pub open spec fn wf(&self) -> bool {
        self.pixels@.len() == self.count * self.rows * self.cols
    }
}

/// The big-endian 32-bit word that starts at `at`.
pub open spec fn be_u32(bytes: Seq<u8>, at: int) -> int {
    bytes[at] as int * 16777216 + bytes[at + 1] as int * 65536 + bytes[at + 2] as int * 256
        + bytes[at + 3] as int
}

/// The four bytes that spell `v` in big-endian order.
pub open spec fn be_bytes(v: u32) -> Seq<u8> {
    seq![
        (v / 16777216) as u8,
        ((v / 65536) % 256) as u8,
        ((v / 256) % 256) as u8,
        (v % 256) as u8,
    ]
}

/// Number of label records that the header declares.
pub open spec fn declared_labels(bytes: Seq<u8>) -> int {
    be_u32(bytes, 4)
}

/// Number of pixel bytes that the header of an image container declares.
pub open spec fn declared_pixels(bytes: Seq<u8>) -> int {
    be_u32(bytes, 4) * be_u32(bytes, 8) * be_u32(bytes, 12)
}

/// The error a label container is rejected with, if any. The header is
/// judged first: its length, then its tag, then the body it promises.
pub open spec fn label_error(bytes: Seq<u8>) -> Option<IdxError> {
    if bytes.len() < 8 {
        Some(IdxError::TruncatedRead { needed: 8, available: bytes.len() as u128 })
    } else if be_u32(bytes, 0) != LABEL_MAGIC {
        Some(IdxError::FormatMismatch { expected: LABEL_MAGIC, found: be_u32(bytes, 0) as u32 })
    } else if bytes.len() < 8 + declared_labels(bytes) {
        Some(
            IdxError::TruncatedRead {
                needed: (8 + declared_labels(bytes)) as u128,
                available: bytes.len() as u128,
            },
        )
    } else {
        None
    }
}

/// The error an image container is rejected with, if any.
pub open spec fn image_error(bytes: Seq<u8>) -> Option<IdxError> {
    if bytes.len() < 16 {
        Some(IdxError::TruncatedRead { needed: 16, available: bytes.len() as u128 })
    } else if be_u32(bytes, 0) != IMAGE_MAGIC {
        Some(IdxError::FormatMismatch { expected: IMAGE_MAGIC, found: be_u32(bytes, 0) as u32 })
    } else if bytes.len() < 16 + declared_pixels(bytes) {
        Some(
            IdxError::TruncatedRead {
                needed: (16 + declared_pixels(bytes)) as u128,
                available: bytes.len() as u128,
            },
        )
    } else {
        None
    }
}

/// A label container that holds exactly `labels`.
pub open spec fn label_file(labels: Seq<u8>) -> Seq<u8> {
    be_bytes(LABEL_MAGIC) + be_bytes(labels.len() as u32) + labels
}

/// An image container that holds `count` images of `rows` by `cols` pixels.
pub open spec fn image_file(count: u32, rows: u32, cols: u32, pixels: Seq<u8>) -> Seq<u8> {
    be_bytes(IMAGE_MAGIC) + be_bytes(count) + be_bytes(rows) + be_bytes(cols) + pixels
}

fn read_be_u32(bytes: &[u8], at: usize) -> (v: u32)
    requires
        at + 4 <= bytes@.len(),
    ensures
        v as int == be_u32(bytes@, at as int),
{
    let b0: u32 = bytes[at] as u32;
    let b1: u32 = bytes[at + 1] as u32;
    let b2: u32 = bytes[at + 2] as u32;
    let b3: u32 = bytes[at + 3] as u32;
    b0 * 16777216 + b1 * 65536 + b2 * 256 + b3
}

fn copy_range(bytes: &[u8], start: usize, end: usize) -> (out: Vec<u8>)
    requires
        start <= end <= bytes@.len(),
    ensures
        out@ == bytes@.subrange(start as int, end as int),
{
    let mut out: Vec<u8> = Vec::new();
    let mut k: usize = start;
    while k < end
        invariant
            start <= k <= end <= bytes@.len(),
            out@ == bytes@.subrange(start as int, k as int),
        decreases end - k,
    {
        out.push(bytes[k]);
        k += 1;
        assert(out@ =~= bytes@.subrange(start as int, k as int));
    }
    out
}

/// Decodes a label container. Every declared record is returned as the
/// number it was written as; bytes after the last declared record are left
/// unread.
pub fn decode_labels(bytes: &[u8]) -> (r: Result<Vec<u8>, IdxError>)
    ensures
        match r {
            Ok(labels) => label_error(bytes@) is None && labels@ == bytes@.subrange(
                8,
                8 + declared_labels(bytes@),
            ) && labels@.len() == declared_labels(bytes@),
            Err(e) => label_error(bytes@) == Some(e),
        },
{
    let available: usize = bytes.len();
    if available < LABEL_HEADER_LEN {
        return Err(IdxError::TruncatedRead { needed: 8, available: available as u128 });
    }
    let magic: u32 = read_be_u32(bytes, 0);
    if magic != LABEL_MAGIC {
        return Err(IdxError::FormatMismatch { expected: LABEL_MAGIC, found: magic });
    }
    let count: u32 = read_be_u32(bytes, 4);
    let needed: u128 = 8 + count as u128;
    if (available as u128) < needed {
        return Err(IdxError::TruncatedRead { needed, available: available as u128 });
    }
    let end: usize = LABEL_HEADER_LEN + count as usize;
    Ok(copy_range(bytes, LABEL_HEADER_LEN, end))
}

/// Decodes an image container into its dimensions and its pixel run.
pub fn decode_images(bytes: &[u8]) -> (r: Result<ImageSet, IdxError>)
    ensures
        match r {
            Ok(set) => {
                &&& image_error(bytes@) is None
                &&& set.wf()
                &&& set.count == be_u32(bytes@, 4)
                &&& set.rows == be_u32(bytes@, 8)
                &&& set.cols == be_u32(bytes@, 12)
                &&& set.pixels@ == bytes@.subrange(16, 16 + declared_pixels(bytes@))
            },
            Err(e) => image_error(bytes@) == Some(e),
        },
{
    let available: usize = bytes.len();
    if available < IMAGE_HEADER_LEN {
        return Err(IdxError::TruncatedRead { needed: 16, available: available as u128 });
    }
    let magic: u32 = read_be_u32(bytes, 0);
    if magic != IMAGE_MAGIC {
        return Err(IdxError::FormatMismatch { expected: IMAGE_MAGIC, found: magic });
    }
    let count: u32 = read_be_u32(bytes, 4);
    let rows: u32 = read_be_u32(bytes, 8);
    let cols: u32 = read_be_u32(bytes, 12);
    proof {
        lemma_pixel_bound(count as int, rows as int, cols as int);
    }
    let body: u128 = count as u128 * rows as u128 * cols as u128;
    let needed: u128 = 16 + body;
    if (available as u128) < needed {
        return Err(IdxError::TruncatedRead { needed, available: available as u128 });
    }
    let end: usize = IMAGE_HEADER_LEN + body as usize;
    let pixels = copy_range(bytes, IMAGE_HEADER_LEN, end);
    Ok(ImageSet { count: count as usize, rows: rows as usize, cols: cols as usize, pixels })
}

/// Decodes a container of the given kind into its flat run of records:
/// the pixel bytes of an image container, the labels of a label container.
pub fn decode(bytes: &[u8], kind: RecordKind) -> (r: Result<Vec<u8>, IdxError>)
    ensures
        match (kind, r) {
            (RecordKind::Labels, Ok(records)) => label_error(bytes@) is None && records@
                == bytes@.subrange(8, 8 + declared_labels(bytes@)),
            (RecordKind::Labels, Err(e)) => label_error(bytes@) == Some(e),
            (RecordKind::Images, Ok(records)) => image_error(bytes@) is None && records@
                == bytes@.subrange(16, 16 + declared_pixels(bytes@)),
            (RecordKind::Images, Err(e)) => image_error(bytes@) == Some(e),
        },
{
    match kind {
        RecordKind::Labels => decode_labels(bytes),
        RecordKind::Images => match decode_images(bytes) {
            Ok(set) => Ok(set.pixels),
            Err(e) => Err(e),
        },
    }
}

/// A product of three 32-bit words stays far below the range of `u128`.
proof fn lemma_pixel_bound(n: int, r: int, c: int)
    requires
        0 <= n < 0x1_0000_0000,
        0 <= r < 0x1_0000_0000,
        0 <= c < 0x1_0000_0000,
    ensures
        0 <= r * c < 0x1_0000_0000_0000_0000,
        0 <= n * r < 0x1_0000_0000_0000_0000,
        0 <= n * r * c < 0x1_0000_0000_0000_0000_0000_0000,
{
    assert(0 <= r * c < 0x1_0000_0000_0000_0000) by (nonlinear_arith)
        requires
            0 <= r < 0x1_0000_0000,
            0 <= c < 0x1_0000_0000,
    ;
    assert(0 <= n * r < 0x1_0000_0000_0000_0000) by (nonlinear_arith)
        requires
            0 <= n < 0x1_0000_0000,
            0 <= r < 0x1_0000_0000,
    ;
    let nr = n * r;
    assert(0 <= nr * c < 0x1_0000_0000_0000_0000_0000_0000) by (nonlinear_arith)
        requires
            0 <= nr < 0x1_0000_0000_0000_0000,
            0 <= c < 0x1_0000_0000,
    ;
}

/// Reading the four bytes that spell a word gives the word back, wherever
/// in a byte run they stand.
pub proof fn lemma_be_round_trip(v: u32, before: Seq<u8>, after: Seq<u8>)
    ensures
        be_u32(before + be_bytes(v) + after, before.len() as int) == v,
{
    let whole = before + be_bytes(v) + after;
    let at = before.len() as int;
    assert(whole[at] == be_bytes(v)[0]);
    assert(whole[at + 1] == be_bytes(v)[1]);
    assert(whole[at + 2] == be_bytes(v)[2]);
    assert(whole[at + 3] == be_bytes(v)[3]);
}

/// Decoding a label container that was written from `labels` succeeds and
/// yields `labels` itself: as many records as were written, each with the
/// value it was written with.
pub proof fn lemma_label_round_trip(labels: Seq<u8>)
    requires
        labels.len() <= u32::MAX,
    ensures
        label_error(label_file(labels)) is None,
        declared_labels(label_file(labels)) == labels.len(),
        label_file(labels).subrange(8, 8 + declared_labels(label_file(labels))) == labels,
{
    let file = label_file(labels);
    let count = labels.len() as u32;
    lemma_be_round_trip(LABEL_MAGIC, Seq::empty(), be_bytes(count) + labels);
    assert(file =~= Seq::<u8>::empty() + be_bytes(LABEL_MAGIC) + (be_bytes(count) + labels));
    lemma_be_round_trip(count, be_bytes(LABEL_MAGIC), labels);
    assert(file.subrange(8, 8 + labels.len() as int) =~= labels);
}

/// Decoding an image container that was written from a pixel run of the
/// declared size succeeds and yields the dimensions and the run itself.
pub proof fn lemma_image_round_trip(count: u32, rows: u32, cols: u32, pixels: Seq<u8>)
    requires
        pixels.len() == count * rows * cols,
    ensures
        image_error(image_file(count, rows, cols, pixels)) is None,
        be_u32(image_file(count, rows, cols, pixels), 4) == count,
        be_u32(image_file(count, rows, cols, pixels), 8) == rows,
        be_u32(image_file(count, rows, cols, pixels), 12) == cols,
        image_file(count, rows, cols, pixels).subrange(
            16,
            16 + declared_pixels(image_file(count, rows, cols, pixels)),
        ) == pixels,
{
    let file = image_file(count, rows, cols, pixels);
    let m = be_bytes(IMAGE_MAGIC);
    let n = be_bytes(count);
    let r = be_bytes(rows);
    let c = be_bytes(cols);
    lemma_be_round_trip(IMAGE_MAGIC, Seq::empty(), n + r + c + pixels);
    assert(file =~= Seq::<u8>::empty() + m + (n + r + c + pixels));
    lemma_be_round_trip(count, m, r + c + pixels);
    assert(file =~= m + n + (r + c + pixels));
    lemma_be_round_trip(rows, m + n, c + pixels);
    assert(file =~= m + n + r + (c + pixels));
    lemma_be_round_trip(cols, m + n + r, pixels);
    assert(file.subrange(16, 16 + pixels.len() as int) =~= pixels);
}

/// Whatever decodes has the sizes its header declares: as many labels as
/// the label header counts, and `count * rows * cols` pixel bytes.
pub proof fn lemma_decoded_sizes(bytes: Seq<u8>)
    ensures
        label_error(bytes) is None ==> bytes.subrange(8, 8 + declared_labels(bytes)).len()
            == be_u32(bytes, 4),
        image_error(bytes) is None ==> bytes.subrange(16, 16 + declared_pixels(bytes)).len()
            == be_u32(bytes, 4) * be_u32(bytes, 8) * be_u32(bytes, 12),
{
    if bytes.len() >= 16 {
        lemma_pixel_bound(be_u32(bytes, 4), be_u32(bytes, 8), be_u32(bytes, 12));
    }
}

} // verus!
