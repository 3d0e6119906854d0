use vstd::prelude::*;
use crate::color::Rgb8;

verus! {

/// A contiguous run of output rows `[start_row, end_row)` and the pixels rendered for it.
#[derive(Debug)]
pub struct ImageBlock {
    pub start_row: u32,
    pub end_row: u32,
    pub rows: Vec<Vec<Rgb8>>,
}

/// Why a set of blocks cannot be assembled into an image.
#[derive(Clone, Copy, Debug, PartialEq, Eq, Structural)]
pub enum AssemblyError {
    /// A block's row range, row count or row width disagrees with the image.
    BlockShape { index: usize },
    /// Two blocks claim a common row.
    Overlap { first: usize, second: usize },
}

/// The row range of block `i` of `n` over an image of `height` rows: equal blocks of
/// `height / n` rows, the remainder going to the last block.
pub open spec fn block_range(height: int, n: int, i: int) -> (int, int) {
    let size = height / n;
    let start = i * size;
    if i == n - 1 {
        (start, start + size + height % n)
    } else {
        (start, start + size)
    }
}

/// Splits `height` rows into `n` contiguous blocks, the remainder going to the last one.
pub fn partition_rows(height: u32, n: u32) -> (blocks: Vec<(u32, u32)>)
    requires
        n >= 1,
    ensures
        blocks.len() == n,
        forall|i: int|
            0 <= i < n ==> (#[trigger] blocks@[i]).0 == block_range(height as int, n as int, i).0
                && blocks@[i].1 == block_range(height as int, n as int, i).1,
{
    let size: u32 = height / n;
    let rem: u32 = height % n;
    let mut blocks: Vec<(u32, u32)> = Vec::new();
    let mut i: u32 = 0;
    while i < n
        invariant
            0 <= i <= n,
            n >= 1,
            size == height / n,
            rem == height % n,
            blocks.len() == i,
            forall|k: int|
                0 <= k < i ==> (#[trigger] blocks@[k]).0 == block_range(
                    height as int,
                    n as int,
                    k,
                ).0 && blocks@[k].1 == block_range(height as int, n as int, k).1,
        decreases n - i,
    {
        proof {
            assert(i * size + size <= n * size) by (nonlinear_arith)
                requires i < n, size >= 0;
            assert(n * size + rem == height) by {
                vstd::arithmetic::div_mod::lemma_fundamental_div_mod(height as int, n as int);
            }
        }
        let start: u32 = i * size;
        let end: u32 = if i == n - 1 {
            start + size + rem
        } else {
            start + size
        };
        blocks.push((start, end));
        i = i + 1;
    }
    blocks
}

/// The blocks of an `n`-way partition cover `[0, height)` contiguously: the first starts
/// at row 0, each starts where the one before ends, and the last ends at `height`.
pub proof fn lemma_partition_covers(height: nat, n: nat)
    requires
        n >= 1,
    ensures
        block_range(height as int, n as int, 0).0 == 0,
        block_range(height as int, n as int, n - 1).1 == height,
        forall|i: int|
            0 < i < n ==> #[trigger] block_range(height as int, n as int, i).0 == block_range(
                height as int,
                n as int,
                i - 1,
            ).1,
{
    let size = height as int / n as int;
    vstd::arithmetic::div_mod::lemma_fundamental_div_mod(height as int, n as int);
    assert((n - 1) * size + size == n * size) by (nonlinear_arith);
    assert forall|i: int| 0 < i < n implies #[trigger] block_range(height as int, n as int, i).0
        == block_range(height as int, n as int, i - 1).1 by {
        assert((i - 1) * size + size == i * size) by (nonlinear_arith);
    }
}

pub open spec fn black() -> Rgb8 {
    Rgb8 { r: 0, g: 0, b: 0 }
}

impl ImageBlock {
    /// The block lies within the image and holds exactly its declared rows, each
    /// `width` pixels wide.
    pub open spec fn well_shaped(&self, width: int, height: int) -> bool {
        &&& self.start_row <= self.end_row <= height
        &&& self.rows.len() == self.end_row - self.start_row
        &&& forall|y: int| 0 <= y < self.rows.len() ==> (#[trigger] self.rows@[y]).len() == width
    }

    pub open spec fn covers(&self, row: int) -> bool {
        self.start_row <= row < self.end_row
    }
}

pub open spec fn overlap(a: ImageBlock, b: ImageBlock) -> bool {
    a.start_row < b.end_row && b.start_row < a.end_row
}

pub open spec fn all_well_shaped(blocks: Seq<ImageBlock>, width: int, height: int) -> bool {
    forall|k: int| 0 <= k < blocks.len() ==> (#[trigger] blocks[k]).well_shaped(width, height)
}

pub open spec fn pairwise_disjoint(blocks: Seq<ImageBlock>) -> bool {
    forall|i: int, j: int|
        0 <= j < i < blocks.len() ==> !overlap(#[trigger] blocks[i], #[trigger] blocks[j])
}

/// The assembled image: every row that a block covers holds that block's row, every
/// other row is black.
pub open spec fn assembled(img: Seq<Vec<Rgb8>>, blocks: Seq<ImageBlock>, width: int, height: int) -> bool {
    &&& img.len() == height
    &&& forall|j: int| 0 <= j < height ==> (#[trigger] img[j]).len() == width
    &&& forall|k: int, y: int|
        0 <= k < blocks.len() && 0 <= y < blocks[k].rows.len() ==> (#[trigger] img[blocks[k].start_row
            + y])@ == (#[trigger] blocks[k].rows@[y])@
    &&& forall|j: int|
        0 <= j < height && (forall|k: int| 0 <= k < blocks.len() ==> !(#[trigger] blocks[k]).covers(j))
            ==> (#[trigger] img[j])@ == Seq::new(width as nat, |x: int| black())
}

fn copy_row(row: &Vec<Rgb8>) -> (r: Vec<Rgb8>)
    ensures
        r@ == row@,
{
    let mut r: Vec<Rgb8> = Vec::new();
    let mut x: usize = 0;
    while x < row.len()
        invariant
            0 <= x <= row.len(),
            r@ == row@.subrange(0, x as int),
        decreases row.len() - x,
    {
        r.push(row[x]);
        x = x + 1;
        proof {
            assert(r@ =~= row@.subrange(0, x as int));
        }
    }
    proof {
        assert(r@ =~= row@);
    }
    r
}

fn black_row(width: u32) -> (r: Vec<Rgb8>)
    ensures
        r@ == Seq::new(width as nat, |x: int| black()),
{
    let mut r: Vec<Rgb8> = Vec::new();
    let mut x: u32 = 0;
    while x < width
        invariant
            0 <= x <= width,
            r@ == Seq::new(x as nat, |i: int| black()),
        decreases width - x,
    {
        r.push(Rgb8 { r: 0, g: 0, b: 0 });
        x = x + 1;
        proof {
            assert(r@ =~= Seq::new(x as nat, |i: int| black()));
        }
    }
    r
}

/// Places each finished block's rows at its own start row. The order of `blocks`
/// (the order in which they arrived) does not matter. Fails when a block's shape
/// disagrees with the image or two blocks claim a common row.
pub fn assemble(width: u32, height: u32, blocks: &Vec<ImageBlock>) -> (r: Result<
    Vec<Vec<Rgb8>>,
    AssemblyError,
>)
    ensures
        r is Ok <==> all_well_shaped(blocks@, width as int, height as int) && pairwise_disjoint(
            blocks@,
        ),
        r matches Ok(img) ==> assembled(img@, blocks@, width as int, height as int),
        r matches Err(AssemblyError::BlockShape { index }) ==> index < blocks.len()
            && !blocks@[index as int].well_shaped(width as int, height as int),
        r matches Err(AssemblyError::Overlap { first, second }) ==> second < first < blocks.len()
            && overlap(blocks@[first as int], blocks@[second as int]),
{
    let mut k: usize = 0;
    while k < blocks.len()
        invariant
            0 <= k <= blocks.len(),
            forall|i: int| 0 <= i < k ==> (#[trigger] blocks@[i]).well_shaped(width as int, height as int),
        decreases blocks.len() - k,
    {
        let b = &blocks[k];
        if !(b.start_row <= b.end_row && b.end_row <= height && b.rows.len() == (b.end_row
            - b.start_row) as usize) {
            return Err(AssemblyError::BlockShape { index: k });
        }
        let mut y: usize = 0;
        while y < b.rows.len()
            invariant
                0 <= y <= b.rows.len(),
                0 <= k < blocks.len(),
                *b == blocks@[k as int],
                b.start_row <= b.end_row <= height,
                b.rows.len() == b.end_row - b.start_row,
                forall|i: int| 0 <= i < k ==> (#[trigger] blocks@[i]).well_shaped(width as int, height as int),
                forall|t: int| 0 <= t < y ==> (#[trigger] b.rows@[t]).len() == width,
            decreases b.rows.len() - y,
        {
            if b.rows[y].len() != width as usize {
                proof {
                    assert(b.rows@[y as int].len() != width);
                }
                return Err(AssemblyError::BlockShape { index: k });
            }
            y = y + 1;
        }
        k = k + 1;
    }
    let mut i: usize = 0;
    while i < blocks.len()
        invariant
            0 <= i <= blocks.len(),
            all_well_shaped(blocks@, width as int, height as int),
            forall|a: int, c: int|
                0 <= c < a < i ==> !overlap(#[trigger] blocks@[a], #[trigger] blocks@[c]),
        decreases blocks.len() - i,
    {
        let mut j: usize = 0;
        while j < i
            invariant
                0 <= j <= i < blocks.len(),
                forall|c: int| 0 <= c < j ==> !overlap(blocks@[i as int], #[trigger] blocks@[c]),
            decreases i - j,
        {
            if blocks[i].start_row < blocks[j].end_row && blocks[j].start_row < blocks[i].end_row {
                return Err(AssemblyError::Overlap { first: i, second: j });
            }
            j = j + 1;
        }
        i = i + 1;
    }
    let mut img: Vec<Vec<Rgb8>> = Vec::new();
    let mut j: u32 = 0;
    while j < height
        invariant
            0 <= j <= height,
            img.len() == j,
            forall|t: int| 0 <= t < j ==> (#[trigger] img@[t])@ == Seq::new(width as nat, |x: int| black()),
        decreases height - j,
    {
        img.push(black_row(width));
        j = j + 1;
    }
    let mut k: usize = 0;
    while k < blocks.len()
        invariant
            0 <= k <= blocks.len(),
            all_well_shaped(blocks@, width as int, height as int),
            pairwise_disjoint(blocks@),
            img.len() == height,
            forall|t: int| 0 <= t < height ==> (#[trigger] img@[t]).len() == width,
            forall|q: int, y: int|
                0 <= q < k && 0 <= y < blocks@[q].rows.len() ==> (#[trigger] img@[blocks@[q].start_row
                    + y])@ == (#[trigger] blocks@[q].rows@[y])@,
            forall|t: int|
                0 <= t < height && (forall|q: int| 0 <= q < k ==> !(#[trigger] blocks@[q]).covers(t))
                    ==> (#[trigger] img@[t])@ == Seq::new(width as nat, |x: int| black()),
        decreases blocks.len() - k,
    {
        let b = &blocks[k];
        proof {
            assert(blocks@[k as int].well_shaped(width as int, height as int));
        }
        let mut y: usize = 0;
        while y < b.rows.len()
            invariant
                0 <= y <= b.rows.len(),
                0 <= k < blocks.len(),
                *b == blocks@[k as int],
                b.well_shaped(width as int, height as int),
                all_well_shaped(blocks@, width as int, height as int),
                pairwise_disjoint(blocks@),
                img.len() == height,
                forall|t: int| 0 <= t < height ==> (#[trigger] img@[t]).len() == width,
                forall|q: int, y2: int|
                    0 <= q < k && 0 <= y2 < blocks@[q].rows.len() ==> (#[trigger] img@[blocks@[q].start_row
                        + y2])@ == (#[trigger] blocks@[q].rows@[y2])@,
                forall|y2: int| 0 <= y2 < y ==> (#[trigger] img@[b.start_row + y2])@ == b.rows@[y2]@,
                forall|t: int|
                    0 <= t < height && (forall|q: int| 0 <= q < k ==> !(#[trigger] blocks@[q]).covers(t))
                        && !(b.start_row <= t < b.start_row + y)
                        ==> (#[trigger] img@[t])@ == Seq::new(width as nat, |x: int| black()),
            decreases b.rows.len() - y,
        {
            let row = copy_row(&b.rows[y]);
            let target: usize = b.start_row as usize + y;
            proof {
                assert(b.rows@[y as int].len() == width);
                assert forall|q: int, y2: int|
                    0 <= q < k && 0 <= y2 < blocks@[q].rows.len() implies #[trigger] blocks@[q].rows@[y2]
                        == blocks@[q].rows@[y2] && blocks@[q].start_row + y2 != target by {
                    assert(blocks@[q].well_shaped(width as int, height as int));
                    assert(!overlap(blocks@[k as int], blocks@[q]));
                }
            }
            img.set(target, row);
            y = y + 1;
        }
        k = k + 1;
        proof {
            assert forall|q: int, y2: int|
                0 <= q < k && 0 <= y2 < blocks@[q].rows.len() implies (#[trigger] img@[blocks@[q].start_row
                    + y2])@ == (#[trigger] blocks@[q].rows@[y2])@ by {
                if q == k - 1 {
                    assert(img@[b.start_row + y2]@ == b.rows@[y2]@);
                }
            }
            assert forall|t: int|
                0 <= t < height && (forall|q: int| 0 <= q < k ==> !(#[trigger] blocks@[q]).covers(t))
                    implies (#[trigger] img@[t])@ == Seq::new(width as nat, |x: int| black()) by {
                assert(!blocks@[k - 1].covers(t));
            }
        }
    }
    Ok(img)
}

} // verus!
