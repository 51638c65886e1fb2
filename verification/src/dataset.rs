//! A dataset as two parallel flat arrays, and its reading as a sequence of
//! examples: each a block of pixels with the label that belongs to it.

use crate::idx::ImageSet;
use vstd::prelude::*;

verus! {

/// One example: the pixels of an image and its label.
pub type Example = (Seq<u8>, u8);

/// Images and labels side by side. Image `i` is the block of `block`
/// bytes that starts at `i * block`; label `i` describes it.
#[derive(Debug, Clone, PartialEq, Eq)]
pub struct Dataset {
    pub images: Vec<u8>,
    pub labels: Vec<u8>,
    pub block: usize,
}

/// Where block `index` starts in a flat array of blocks of `stride` items.
pub open spec fn offset(index: int, stride: int) -> int {
    index * stride
}

/// Blocks lie one behind the other, in the order of their indices, and
/// inside an array of `count` blocks.
pub proof fn lemma_offsets(index: int, count: int, stride: int)
    requires
        0 <= index < count,
        0 <= stride,
    ensures
        0 <= offset(index, stride),
        offset(index + 1, stride) == offset(index, stride) + stride,
        offset(index + 1, stride) <= offset(count, stride),
{
    assert(0 <= index * stride) by (nonlinear_arith)
        requires
            0 <= index,
            0 <= stride,
    ;
    assert((index + 1) * stride == index * stride + stride) by (nonlinear_arith);
    assert((index + 1) * stride <= count * stride) by (nonlinear_arith)
        requires
            index + 1 <= count,
            0 <= stride,
    ;
}

/// An earlier block ends before a later one starts.
pub proof fn lemma_offsets_ordered(a: int, b: int, stride: int)
    requires
        0 <= a < b,
        0 <= stride,
    ensures
        offset(a, stride) + stride <= offset(b, stride),
{
    assert(a * stride + stride <= b * stride) by (nonlinear_arith)
        requires
            a + 1 <= b,
            0 <= stride,
    ;
}

/// `s` with the items at `i` and `j` exchanged.
pub open spec fn swap_at<T>(s: Seq<T>, i: int, j: int) -> Seq<T> {
    s.update(i, s[j]).update(j, s[i])
}

/// Whether `after` is `before` with the blocks `i` and `j` exchanged byte
/// for byte and every other byte in place.
pub open spec fn blocks_exchanged(
    before: Seq<u8>,
    after: Seq<u8>,
    stride: int,
    i: int,
    j: int,
    done: int,
) -> bool {
    &&& after.len() == before.len()
    &&& forall|p: int|
        0 <= p < before.len() ==> #[trigger] after[p] == (if offset(i, stride) <= p < offset(
            i,
            stride,
        ) + done {
            before[p - offset(i, stride) + offset(j, stride)]
        } else if offset(j, stride) <= p < offset(j, stride) + done {
            before[p - offset(j, stride) + offset(i, stride)]
        } else {
            before[p]
        })
}

/// The block that stands at `e` once the blocks `i` and `j` have changed
/// places is the one that stood at the other of the two, or at `e` itself.
proof fn lemma_block_swap(
    before: Seq<u8>,
    after: Seq<u8>,
    count: int,
    stride: int,
    i: int,
    j: int,
    e: int,
)
    requires
        0 <= i < count,
        0 <= j < count,
        0 <= e < count,
        i != j,
        0 <= stride,
        before.len() == offset(count, stride),
        blocks_exchanged(before, after, stride, i, j, stride),
    ensures
        after.subrange(offset(e, stride), offset(e + 1, stride)) == before.subrange(
            offset(if e == i { j } else if e == j { i } else { e }, stride),
            offset(if e == i { j } else if e == j { i } else { e } + 1, stride),
        ),
{
    let from = if e == i { j } else if e == j { i } else { e };
    lemma_offsets(i, count, stride);
    lemma_offsets(j, count, stride);
    lemma_offsets(e, count, stride);
    if i < j {
        lemma_offsets_ordered(i, j, stride);
    } else {
        lemma_offsets_ordered(j, i, stride);
    }
    if e < i {
        lemma_offsets_ordered(e, i, stride);
    }
    if i < e {
        lemma_offsets_ordered(i, e, stride);
    }
    if e < j {
        lemma_offsets_ordered(e, j, stride);
    }
    if j < e {
        lemma_offsets_ordered(j, e, stride);
    }
    let got = after.subrange(offset(e, stride), offset(e + 1, stride));
    let want = before.subrange(offset(from, stride), offset(from + 1, stride));
    assert(got.len() == want.len());
    assert forall|t: int| 0 <= t < stride implies got[t] == want[t] by {
        assert(got[t] == after[offset(e, stride) + t]);
    }
    assert(got =~= want);
}

impl Dataset {
    /// The image array holds one block for each label.
    pub open spec fn wf(&self) -> bool {
        self.images@.len() == offset(self.labels@.len() as int, self.block as int)
    }

    /// Example `i`: its pixel block and its label.
    pub open spec fn example(&self, i: int) -> Example {
        (
            self.images@.subrange(offset(i, self.block as int), offset(i + 1, self.block as int)),
            self.labels@[i],
        )
    }

    /// The examples in order.
    pub open spec fn view(&self) -> Seq<Example> {
        Seq::new(self.labels@.len(), |i: int| self.example(i))
    }

    /// Pairs an image array with a label array. `None` exactly when the
    /// image array does not hold one block of `block` bytes for each label.
    pub fn new(images: Vec<u8>, labels: Vec<u8>, block: usize) -> (r: Option<Dataset>)
        ensures
            match r {
                Some(d) => d.wf() && d.images == images && d.labels == labels && d.block == block,
                None => images@.len() != labels@.len() * block,
            },
    {
        let count: usize = labels.len();
        assert(count * block <= u128::MAX) by (nonlinear_arith)
            requires
                count <= 0xffff_ffff_ffff_ffff,
                block <= 0xffff_ffff_ffff_ffff,
        ;
        let want: u128 = count as u128 * block as u128;
        if images.len() as u128 == want {
            Some(Dataset { images, labels, block })
        } else {
            None
        }
    }

    /// Pairs a decoded image container with decoded labels, one block of
    /// `rows * cols` pixels for each label. `None` exactly when the number
    /// of labels is not the number of images, or an image is too large to
    /// index.
    pub fn from_decoded(set: ImageSet, labels: Vec<u8>) -> (r: Option<Dataset>)
        requires
            set.wf(),
        ensures
            match r {
                Some(d) => {
                    &&& d.wf()
                    &&& d.images == set.pixels
                    &&& d.labels == labels
                    &&& d.block == set.rows * set.cols
                    &&& labels@.len() == set.count
                },
                None => labels@.len() != set.count || set.rows * set.cols > usize::MAX,
            },
    {
        if labels.len() != set.count {
            return None;
        }
        match set.rows.checked_mul(set.cols) {
            Some(block) => {
                assert(set.count * set.rows * set.cols == set.count * block) by (nonlinear_arith)
                    requires
                        block == set.rows * set.cols,
                ;
                Some(Dataset { images: set.pixels, labels, block })
            },
            None => None,
        }
    }

    /// Number of examples.
    pub fn len(&self) -> (n: usize)
        ensures
            n == self@.len(),
    {
        self.labels.len()
    }

    /// Label of example `i`.
    pub fn label(&self, i: usize) -> (l: u8)
        requires
            self.wf(),
            i < self@.len(),
        ensures
            l == self@[i as int].1,
    {
        self.labels[i]
    }

    /// Exchanges the examples `i` and `j` as whole units: the two pixel
    /// blocks change places, and so do the two labels.
    pub fn swap(&mut self, i: usize, j: usize)
        requires
            old(self).wf(),
            i < old(self)@.len(),
            j < old(self)@.len(),
        ensures
            final(self).wf(),
            final(self).block == old(self).block,
            final(self)@ == swap_at(old(self)@, i as int, j as int),
    {
        if i == j {
            assert(self@ =~= swap_at(self@, i as int, j as int));
            return;
        }
        let block: usize = self.block;
        let count: usize = self.labels.len();
        let total: usize = self.images.len();
        let ghost before = self.images@;
        proof {
            lemma_offsets(i as int, count as int, block as int);
            lemma_offsets(j as int, count as int, block as int);
            if i < j {
                lemma_offsets_ordered(i as int, j as int, block as int);
            } else {
                lemma_offsets_ordered(j as int, i as int, block as int);
            }
            assert(i * block + block <= total);
            assert(j * block + block <= total);
        }
        let at_i: usize = i * block;
        let at_j: usize = j * block;
        let label_i: u8 = self.labels[i];
        let label_j: u8 = self.labels[j];
        self.labels.set(i, label_j);
        self.labels.set(j, label_i);
        let mut k: usize = 0;
        while k < block
            invariant
                k <= block,
                block == self.block,
                self.block == old(self).block,
                self.labels@ == swap_at(old(self).labels@, i as int, j as int),
                at_i == offset(i as int, block as int),
                at_j == offset(j as int, block as int),
                at_i + block <= total,
                at_j + block <= total,
                at_i + block <= at_j || at_j + block <= at_i,
                total == before.len(),
                blocks_exchanged(before, self.images@, block as int, i as int, j as int, k as int),
            decreases block - k,
        {
            let a: u8 = self.images[at_i + k];
            let b: u8 = self.images[at_j + k];
            self.images.set(at_i + k, b);
            self.images.set(at_j + k, a);
            k += 1;
        }
        proof {
            let want = swap_at(old(self)@, i as int, j as int);
            assert(self@.len() == want.len());
            assert forall|e: int| 0 <= e < count implies self@[e] == want[e] by {
                lemma_block_swap(
                    before,
                    self.images@,
                    count as int,
                    block as int,
                    i as int,
                    j as int,
                    e,
                );
            }
            assert(self@ =~= want);
        }
    }

    /// Pixel `k` of image `i`.
    pub fn pixel(&self, i: usize, k: usize) -> (p: u8)
        requires
            self.wf(),
            i < self@.len(),
            k < self.block,
        ensures
            p == self@[i as int].0[k as int],
    {
        let total: usize = self.images.len();
        proof {
            lemma_offsets(i as int, self.labels@.len() as int, self.block as int);
            assert(i * self.block + self.block <= total);
        }
        self.images[i * self.block + k]
    }
}

} // verus!
