use vstd::prelude::*;

verus! {

/// Size of one block, in bytes.
pub const BLOCK_SIZE: usize = 4096;

/// Number of blocks on a fresh volume.
pub const BLOCK_COUNT: usize = 1024;

/// Marker written after a payload whose length is not a whole number of blocks.
pub const EOF_BYTE: u8 = 255;

/// One entry of the allocation table.
#[derive(Debug, Clone, Copy, PartialEq, Eq, Structural)]
pub enum FATItem {
    /// The block is free.
    UnUsed,
    /// The block is used and its chain goes on at the given block.
    Cluster(usize),
    /// The block can never be used.
    BadCluster,
    /// The block is the last one of its chain.
    EOF,
}

/// The block store and its allocation table.
pub struct Disk {
    pub fat: Vec<FATItem>,
    pub data: Vec<u8>,
}

/// The bytes of block `c` in a data area.
pub open spec fn block_of(data: Seq<u8>, c: int) -> Seq<u8> {
    data.subrange(c * BLOCK_SIZE, (c + 1) * BLOCK_SIZE)
}

/// `n` zero bytes.
pub open spec fn zeros(n: nat) -> Seq<u8> {
    Seq::new(n, |i: int| 0u8)
}

/// What a payload looks like once stored in `n` blocks: the payload, the end
/// marker when `eof` is set, and zeroes up to the end of the last block.
pub open spec fn padded_image(b: Seq<u8>, eof: bool, n: nat) -> Seq<u8> {
    let m = if eof {
        b.push(EOF_BYTE)
    } else {
        b
    };
    m + zeros((n * BLOCK_SIZE - m.len()) as nat)
}

/// The blocks `cs`, in that order, put end to end.
pub open spec fn blocks_concat(data: Seq<u8>, cs: Seq<usize>) -> Seq<u8>
    decreases cs.len(),
{
    if cs.len() == 0 {
        Seq::empty()
    } else {
        blocks_concat(data, cs.drop_last()) + block_of(data, cs.last() as int)
    }
}

/// Backward scan for the end marker, looking at position `d.len() - i` and
/// before, never further back than the last `BLOCK_SIZE` bytes.
/// Gives the length that the scan keeps.
pub open spec fn scan_from(d: Seq<u8>, i: int) -> int
    decreases BLOCK_SIZE + 1 - i,
{
    if i < 1 || i > BLOCK_SIZE || i > d.len() {
        d.len() as int
    } else if d[d.len() - i] == EOF_BYTE {
        d.len() - i
    } else {
        scan_from(d, i + 1)
    }
}

/// The content that a chain of blocks holding `d` stands for.
pub open spec fn strip_marker(d: Seq<u8>) -> Seq<u8> {
    d.subrange(0, scan_from(d, 1))
}

/// `data` with the range starting at `offset` replaced by `b`.
pub open spec fn overwrite(data: Seq<u8>, offset: int, b: Seq<u8>) -> Seq<u8> {
    data.subrange(0, offset) + b + data.subrange(offset + b.len(), data.len() as int)
}

/// Distinct blocks occupy disjoint byte ranges.
pub proof fn lemma_blocks_disjoint(c1: int, j1: int, c2: int, j2: int)
    requires
        c1 != c2,
        0 <= j1 < BLOCK_SIZE,
        0 <= j2 < BLOCK_SIZE,
    ensures
        c1 * BLOCK_SIZE + j1 != c2 * BLOCK_SIZE + j2,
{
    if c1 < c2 {
        assert(c1 * BLOCK_SIZE + BLOCK_SIZE <= c2 * BLOCK_SIZE) by (nonlinear_arith)
            requires
                c1 + 1 <= c2,
        ;
    } else {
        assert(c2 * BLOCK_SIZE + BLOCK_SIZE <= c1 * BLOCK_SIZE) by (nonlinear_arith)
            requires
                c2 + 1 <= c1,
        ;
    }
}

/// Block `c` lies inside a data area of `n` blocks.
pub proof fn lemma_block_in_range(c: int, j: int, n: int)
    requires
        0 <= c < n,
        0 <= j < BLOCK_SIZE,
    ensures
        0 <= c * BLOCK_SIZE,
        c * BLOCK_SIZE + j < n * BLOCK_SIZE,
        (c + 1) * BLOCK_SIZE <= n * BLOCK_SIZE,
{
    assert((c + 1) * BLOCK_SIZE <= n * BLOCK_SIZE) by (nonlinear_arith)
        requires
            c + 1 <= n,
    ;
    assert(0 <= c * BLOCK_SIZE) by (nonlinear_arith)
        requires
            0 <= c,
    ;
}

/// When each block of `cs` holds its slice of `img`, the blocks put end to
/// end are `img`.
pub proof fn lemma_blocks_concat(data: Seq<u8>, cs: Seq<usize>, img: Seq<u8>)
    requires
        img.len() == cs.len() * BLOCK_SIZE,
        forall|i: int| 0 <= i < cs.len() ==> (#[trigger] cs[i]) * BLOCK_SIZE + BLOCK_SIZE <= data.len(),
        forall|i: int, j: int|
            0 <= i < cs.len() && 0 <= j < BLOCK_SIZE ==> #[trigger] data[cs[i] * BLOCK_SIZE + j]
                == img[i * BLOCK_SIZE + j],
    ensures
        blocks_concat(data, cs) =~= img,
    decreases cs.len(),
{
    if cs.len() > 0 {
        let k = cs.len() - 1;
        let front = img.subrange(0, k * BLOCK_SIZE);
        assert(k * BLOCK_SIZE + BLOCK_SIZE == cs.len() * BLOCK_SIZE) by (nonlinear_arith)
            requires
                k == cs.len() - 1,
        ;
        assert forall|i: int| 0 <= i < cs.drop_last().len() implies (#[trigger] cs.drop_last()[i])
            * BLOCK_SIZE + BLOCK_SIZE <= data.len() by {
            assert(cs.drop_last()[i] == cs[i]);
        }
        assert forall|i: int, j: int|
            0 <= i < cs.drop_last().len() && 0 <= j < BLOCK_SIZE implies #[trigger] data[cs.drop_last()[i] * BLOCK_SIZE
                + j] == front[i * BLOCK_SIZE + j] by {
            assert(cs.drop_last()[i] == cs[i]);
            assert(i * BLOCK_SIZE + j < k * BLOCK_SIZE) by (nonlinear_arith)
                requires
                    i + 1 <= k,
                    j < BLOCK_SIZE,
            ;
            assert(0 <= i * BLOCK_SIZE) by (nonlinear_arith)
                requires
                    0 <= i,
            ;
            assert(data[cs[i] * BLOCK_SIZE + j] == img[i * BLOCK_SIZE + j]);
            assert(front[i * BLOCK_SIZE + j] == img[i * BLOCK_SIZE + j]);
        }
        lemma_blocks_concat(data, cs.drop_last(), front);
        let c = cs.last() as int;
        assert(cs[k] * BLOCK_SIZE + BLOCK_SIZE <= data.len());
        assert(0 <= c * BLOCK_SIZE) by (nonlinear_arith)
            requires
                0 <= c,
        ;
        assert forall|j: int| 0 <= j < BLOCK_SIZE implies #[trigger] block_of(data, c)[j]
            == img.subrange(k * BLOCK_SIZE, cs.len() * BLOCK_SIZE)[j] by {
            assert(data[cs[k] * BLOCK_SIZE + j] == img[k * BLOCK_SIZE + j]);
            assert(block_of(data, c)[j] == data[c * BLOCK_SIZE + j]);
            assert(img.subrange(k * BLOCK_SIZE, cs.len() * BLOCK_SIZE)[j] == img[k * BLOCK_SIZE
                + j]);
        }
        assert(block_of(data, c) =~= img.subrange(k * BLOCK_SIZE, cs.len() * BLOCK_SIZE));
    }
}

/// Blocks put end to end are as long as the blocks together, and byte `j`
/// of the `i`-th of them is byte `j` of block `cs[i]`.
pub proof fn lemma_blocks_concat_index(data: Seq<u8>, cs: Seq<usize>)
    requires
        forall|i: int| 0 <= i < cs.len() ==> (#[trigger] cs[i]) * BLOCK_SIZE + BLOCK_SIZE <= data.len(),
    ensures
        blocks_concat(data, cs).len() == cs.len() * BLOCK_SIZE,
        forall|i: int, j: int|
            0 <= i < cs.len() && 0 <= j < BLOCK_SIZE ==> #[trigger] data[cs[i] * BLOCK_SIZE + j]
                == blocks_concat(data, cs)[i * BLOCK_SIZE + j],
    decreases cs.len(),
{
    if cs.len() > 0 {
        let front = cs.drop_last();
        assert forall|i: int| 0 <= i < front.len() implies (#[trigger] front[i]) * BLOCK_SIZE + BLOCK_SIZE
            <= data.len() by {
            assert(front[i] == cs[i]);
        }
        lemma_blocks_concat_index(data, front);
        let k = cs.len() - 1;
        let c = cs.last() as int;
        assert(cs[k] * BLOCK_SIZE + BLOCK_SIZE <= data.len());
        assert(0 <= c * BLOCK_SIZE) by (nonlinear_arith)
            requires
                0 <= c,
        ;
        assert(k * BLOCK_SIZE + BLOCK_SIZE == cs.len() * BLOCK_SIZE) by (nonlinear_arith)
            requires
                k == cs.len() - 1,
        ;
        let whole = blocks_concat(data, cs);
        assert forall|i: int, j: int|
            0 <= i < cs.len() && 0 <= j < BLOCK_SIZE implies #[trigger] data[cs[i] * BLOCK_SIZE + j]
                == whole[i * BLOCK_SIZE + j] by {
            if i < k {
                assert(front[i] == cs[i]);
                assert(data[front[i] * BLOCK_SIZE + j] == blocks_concat(data, front)[i * BLOCK_SIZE + j]);
                assert(i * BLOCK_SIZE + j < k * BLOCK_SIZE) by (nonlinear_arith)
                    requires
                        i + 1 <= k,
                        j < BLOCK_SIZE,
                ;
                assert(0 <= i * BLOCK_SIZE) by (nonlinear_arith)
                    requires
                        0 <= i,
                ;
            } else {
                assert(i == k);
                assert(whole[k * BLOCK_SIZE + j] == block_of(data, c)[j]);
            }
        }
    }
}

/// Byte `k` of the data area lies in one of the blocks `cs`.
pub open spec fn in_blocks(cs: Seq<usize>, k: int) -> bool {
    exists|i: int| 0 <= i < cs.len() && (#[trigger] cs[i]) * BLOCK_SIZE <= k < cs[i] * BLOCK_SIZE + BLOCK_SIZE
}

/// The blocks `cs` are distinct blocks of a table of `n` entries.
pub open spec fn valid_clusters(cs: Seq<usize>, n: nat) -> bool {
    &&& forall|i: int| 0 <= i < cs.len() ==> #[trigger] cs[i] < n
    &&& forall|i: int, j: int| 0 <= i < cs.len() && 0 <= j < cs.len() && i != j ==> cs[i] != cs[j]
}

impl Disk {
    /// The block store has one block for each table entry.
    pub open spec fn wf(&self) -> bool {
        self.data@.len() == self.fat@.len() * BLOCK_SIZE
    }

    /// A fresh volume: every block free and zeroed.
    pub fn new() -> (r: Disk)
        ensures
            r.wf(),
            r.fat@.len() == BLOCK_COUNT,
            forall|i: int| 0 <= i < BLOCK_COUNT ==> #[trigger] r.fat@[i] == FATItem::UnUsed,
            forall|i: int| 0 <= i < r.data@.len() ==> #[trigger] r.data@[i] == 0u8,
    {
        let mut fat: Vec<FATItem> = Vec::new();
        let mut k: usize = 0;
        while k < BLOCK_COUNT
            invariant
                k <= BLOCK_COUNT,
                fat@.len() == k,
                forall|i: int| 0 <= i < k ==> #[trigger] fat@[i] == FATItem::UnUsed,
            decreases BLOCK_COUNT - k,
        {
            fat.push(FATItem::UnUsed);
            k = k + 1;
        }
        let mut data: Vec<u8> = Vec::new();
        let total: usize = BLOCK_COUNT * BLOCK_SIZE;
        let mut j: usize = 0;
        while j < total
            invariant
                j <= total,
                total == BLOCK_COUNT * BLOCK_SIZE,
                data@.len() == j,
                forall|i: int| 0 <= i < j ==> #[trigger] data@[i] == 0u8,
            decreases total - j,
        {
            data.push(0u8);
            j = j + 1;
        }
        Disk { fat, data }
    }

    /// Writes `data` into the data area from byte `offset` on.
    pub fn insert_data_in_offset(&mut self, data: &[u8], offset: usize)
        requires
            offset + data@.len() <= old(self).data@.len(),
        ensures
            final(self).fat@ == old(self).fat@,
            final(self).data@ == overwrite(old(self).data@, offset as int, data@),
    {
        let ghost before = self.data@;
        let n: usize = self.data.len();
        let mut i: usize = 0;
        while i < data.len()
            invariant
                n == before.len(),
                offset + data@.len() <= before.len(),
                self.fat@ == old(self).fat@,
                before == old(self).data@,
                i <= data@.len(),
                self.data@.len() == before.len(),
                forall|k: int|
                    0 <= k < self.data@.len() ==> #[trigger] self.data@[k] == if offset <= k
                        < offset + i {
                        data@[k - offset]
                    } else {
                        before[k]
                    },
            decreases data@.len() - i,
        {
            self.data.set(offset + i, data[i]);
            i = i + 1;
        }
        assert(self.data@ =~= overwrite(before, offset as int, data@));
    }

    /// Writes `data` at the start of block `cluster`.
    pub fn insert_data_in_cluster(&mut self, data: &[u8], cluster: usize)
        requires
            cluster * BLOCK_SIZE + data@.len() <= old(self).data@.len(),
        ensures
            final(self).fat@ == old(self).fat@,
            final(self).data@ == overwrite(old(self).data@, cluster * BLOCK_SIZE, data@),
    {
        let n: usize = self.data.len();
        assert(cluster * BLOCK_SIZE <= n);
        self.insert_data_in_offset(data, cluster * BLOCK_SIZE)
    }

    /// Copies of the bytes of block `cluster`.
    pub fn read_in_cluster(&self, cluster: usize) -> (r: Vec<u8>)
        requires
            self.wf(),
            cluster < self.fat@.len(),
        ensures
            r@ == block_of(self.data@, cluster as int),
    {
        let n: usize = self.data.len();
        proof {
            assert((cluster + 1) * BLOCK_SIZE <= self.fat@.len() * BLOCK_SIZE) by (nonlinear_arith)
                requires
                    cluster + 1 <= self.fat@.len(),
            ;
        }
        let start: usize = cluster * BLOCK_SIZE;
        let mut r: Vec<u8> = Vec::new();
        let mut i: usize = 0;
        while i < BLOCK_SIZE
            invariant
                start == cluster * BLOCK_SIZE,
                start + BLOCK_SIZE <= self.data@.len(),
                i <= BLOCK_SIZE,
                r@ =~= self.data@.subrange(start as int, start + i),
            decreases BLOCK_SIZE - i,
        {
            r.push(self.data[start + i]);
            i = i + 1;
        }
        r
    }

    /// Writes `data` over the blocks `clusters`, in order, followed by the end
    /// marker when `insert_eof` is set and by zeroes up to the end of the last
    /// block. Nothing outside those blocks changes.
    pub fn write_in_clusters(&mut self, data: &[u8], clusters: &[usize], insert_eof: bool)
        requires
            old(self).wf(),
            valid_clusters(clusters@, old(self).fat@.len()),
            clusters@.len() <= old(self).fat@.len(),
            data@.len() + (if insert_eof {
                1int
            } else {
                0int
            }) <= clusters@.len() * BLOCK_SIZE,
        ensures
            final(self).wf(),
            final(self).fat@ == old(self).fat@,
            forall|i: int, j: int|
                0 <= i < clusters@.len() && 0 <= j < BLOCK_SIZE ==> #[trigger] final(self).data@[clusters@[i]
                    * BLOCK_SIZE + j] == padded_image(data@, insert_eof, clusters@.len())[i
                    * BLOCK_SIZE + j],
            forall|k: int|
                0 <= k < final(self).data@.len() && !in_blocks(clusters@, k) ==> #[trigger] final(self).data@[k]
                    == old(self).data@[k],
    {
        let ghost img = padded_image(data@, insert_eof, clusters@.len());
        let n: usize = clusters.len();
        let total: usize = self.data.len();
        let mut i: usize = 0;
        while i < n
            invariant
                self.wf(),
                self.fat@ == old(self).fat@,
                total == self.data@.len(),
                n == clusters@.len(),
                n <= self.fat@.len(),
                i <= n,
                valid_clusters(clusters@, self.fat@.len()),
                img == padded_image(data@, insert_eof, clusters@.len()),
                data@.len() + (if insert_eof {
                    1int
                } else {
                    0int
                }) <= clusters@.len() * BLOCK_SIZE,
                forall|a: int, b: int|
                    0 <= a < i && 0 <= b < BLOCK_SIZE ==> #[trigger] self.data@[clusters@[a]
                        * BLOCK_SIZE + b] == img[a * BLOCK_SIZE + b],
                forall|k: int|
                    0 <= k < self.data@.len() && !in_blocks(clusters@, k) ==> #[trigger] self.data@[k]
                        == old(self).data@[k],
            decreases n - i,
        {
            let c: usize = clusters[i];
            proof {
                lemma_block_in_range(c as int, 0, self.fat@.len() as int);
                assert(i * BLOCK_SIZE + BLOCK_SIZE <= n * BLOCK_SIZE) by (nonlinear_arith)
                    requires
                        i + 1 <= n,
                ;
                assert(n * BLOCK_SIZE <= self.fat@.len() * BLOCK_SIZE) by (nonlinear_arith)
                    requires
                        n <= self.fat@.len(),
                ;
            }
            let base: usize = c * BLOCK_SIZE;
            let start: usize = i * BLOCK_SIZE;
            let mut j: usize = 0;
            while j < BLOCK_SIZE
                invariant
                    self.wf(),
                    self.fat@ == old(self).fat@,
                    total == self.data@.len(),
                    n == clusters@.len(),
                    i < n,
                    c == clusters@[i as int],
                    base == c * BLOCK_SIZE,
                    base + BLOCK_SIZE <= total,
                    start == i * BLOCK_SIZE,
                    start + BLOCK_SIZE <= n * BLOCK_SIZE,
                    j <= BLOCK_SIZE,
                    valid_clusters(clusters@, self.fat@.len()),
                    img == padded_image(data@, insert_eof, clusters@.len()),
                    data@.len() + (if insert_eof {
                        1int
                    } else {
                        0int
                    }) <= clusters@.len() * BLOCK_SIZE,
                    forall|a: int, b: int|
                        0 <= a < i && 0 <= b < BLOCK_SIZE ==> #[trigger] self.data@[clusters@[a]
                            * BLOCK_SIZE + b] == img[a * BLOCK_SIZE + b],
                    forall|b: int| 0 <= b < j ==> #[trigger] self.data@[base + b] == img[start + b],
                    forall|k: int|
                        0 <= k < self.data@.len() && !in_blocks(clusters@, k) ==> #[trigger] self.data@[k]
                            == old(self).data@[k],
                decreases BLOCK_SIZE - j,
            {
                let p: usize = start + j;
                let byte: u8 = if p < data.len() {
                    data[p]
                } else if insert_eof && p == data.len() {
                    EOF_BYTE
                } else {
                    0u8
                };
                assert(byte == img[p as int]);
                let ghost prev = self.data@;
                self.data.set(base + j, byte);
                proof {
                    assert forall|a: int, b: int|
                        0 <= a < i && 0 <= b < BLOCK_SIZE implies #[trigger] self.data@[clusters@[a]
                            * BLOCK_SIZE + b] == img[a * BLOCK_SIZE + b] by {
                        lemma_blocks_disjoint(clusters@[a] as int, b, c as int, j as int);
                        assert(prev[clusters@[a] * BLOCK_SIZE + b] == img[a * BLOCK_SIZE + b]);
                    }
                    assert forall|k: int|
                        0 <= k < self.data@.len() && !in_blocks(clusters@, k) implies #[trigger] self.data@[k]
                            == old(self).data@[k] by {
                        if k == base + j {
                            assert(clusters@[i as int] * BLOCK_SIZE <= k);
                            assert(in_blocks(clusters@, k));
                        }
                        assert(prev[k] == old(self).data@[k]);
                    }
                    assert forall|b: int| 0 <= b < j + 1 implies #[trigger] self.data@[base + b]
                        == img[start + b] by {
                        if b < j {
                            assert(prev[base + b] == img[start + b]);
                        }
                    }
                }
                j = j + 1;
            }
            i = i + 1;
        }
    }

    /// Reads the blocks `clusters` end to end, then drops everything from the
    /// last end marker found within the final `BLOCK_SIZE` bytes on; with no
    /// marker there, all the bytes are kept.
    pub fn read_in_clusters(&self, clusters: &[usize]) -> (r: Vec<u8>)
        requires
            self.wf(),
            1 <= clusters@.len(),
            clusters@.len() * BLOCK_SIZE <= usize::MAX,
            forall|i: int| 0 <= i < clusters@.len() ==> #[trigger] clusters@[i] < self.fat@.len(),
        ensures
            r@ == strip_marker(blocks_concat(self.data@, clusters@)),
    {
        let n: usize = clusters.len();
        let mut data: Vec<u8> = Vec::new();
        let mut i: usize = 0;
        while i < n
            invariant
                self.wf(),
                n == clusters@.len(),
                1 <= n,
                n * BLOCK_SIZE <= usize::MAX,
                i <= n,
                forall|k: int| 0 <= k < clusters@.len() ==> #[trigger] clusters@[k] < self.fat@.len(),
                data@ == blocks_concat(self.data@, clusters@.subrange(0, i as int)),
                data@.len() == i * BLOCK_SIZE,
            decreases n - i,
        {
            let mut buffer = self.read_in_cluster(clusters[i]);
            proof {
                assert(clusters@.subrange(0, i + 1).drop_last() =~= clusters@.subrange(0, i as int));
                assert((i + 1) * BLOCK_SIZE <= n * BLOCK_SIZE) by (nonlinear_arith)
                    requires
                        i + 1 <= n,
                ;
                assert((i + 1) * BLOCK_SIZE == i * BLOCK_SIZE + BLOCK_SIZE) by (nonlinear_arith);
            }
            data.append(&mut buffer);
            i = i + 1;
        }
        assert(clusters@.subrange(0, n as int) =~= clusters@);
        let ghost d = data@;
        let len: usize = data.len();
        assert(len >= BLOCK_SIZE) by (nonlinear_arith)
            requires
                len == n * BLOCK_SIZE,
                n >= 1,
        ;
        let mut k: usize = 1;
        while k <= BLOCK_SIZE && data[len - k] != EOF_BYTE
            invariant
                data@ == d,
                len == d.len(),
                len >= BLOCK_SIZE,
                1 <= k <= BLOCK_SIZE + 1,
                scan_from(d, 1) == scan_from(d, k as int),
            decreases BLOCK_SIZE + 1 - k,
        {
            k = k + 1;
        }
        if k <= BLOCK_SIZE {
            data.truncate(len - k);
        }
        assert(data@ =~= strip_marker(d));
        data
    }
}

} // verus!
