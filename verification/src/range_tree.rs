//! Mapping of decompressed record offsets to the record blocks that hold them.
use vstd::prelude::*;
use crate::error::{format_error, Result};
use crate::sorting::{
    insert_pos, insert_sorted, is_sorted_by, is_transitive, lemma_insert_pos, lemma_stable_sort,
    lemma_stable_sort_step, stable_sort,
};

verus! {

/// Sizes and offsets of one record block.
#[derive(Debug, Clone, Copy, PartialEq, Eq, Structural)]
pub struct RecordBlockInfo {
    pub compressed_size: u64,
    pub decompressed_size: u64,
    pub compressed_accumulator_offset: u64,
    pub decompressed_accumulator_offset: u64,
}

/// The end of a block's decompressed range, as a mathematical integer.
pub open spec fn block_end(b: RecordBlockInfo) -> int {
    b.decompressed_accumulator_offset + b.decompressed_size
}

/// Whether a block's decompressed range holds `offset` (and its end fits in 64 bits).
pub open spec fn block_contains(b: RecordBlockInfo, offset: u64) -> bool {
    &&& block_end(b) <= u64::MAX
    &&& b.decompressed_accumulator_offset <= offset
    &&& offset < block_end(b)
}

/// Blocks are ordered by where their decompressed range starts.
pub open spec fn block_lt() -> spec_fn(RecordBlockInfo, RecordBlockInfo) -> bool {
    |a: RecordBlockInfo, b: RecordBlockInfo|
        a.decompressed_accumulator_offset < b.decompressed_accumulator_offset
}

/// Consecutive blocks do not overlap and their ends fit in 64 bits.
pub open spec fn no_overlap(s: Seq<RecordBlockInfo>) -> bool {
    forall|i: int|
        0 <= i < s.len() - 1 ==> block_end(#[trigger] s[i]) <= u64::MAX && block_end(s[i])
            <= s[i + 1].decompressed_accumulator_offset
}

/// Blocks sorted by start.
pub open spec fn sorted_by_start(s: Seq<RecordBlockInfo>) -> bool {
    forall|i: int, j: int|
        0 <= i <= j < s.len() ==> (#[trigger] s[i]).decompressed_accumulator_offset
            <= (#[trigger] s[j]).decompressed_accumulator_offset
}

/// First position at or after `i` whose block starts after `offset`, or the end.
pub open spec fn partition_point(s: Seq<RecordBlockInfo>, offset: u64, i: int) -> int
    decreases s.len() - i,
{
    if i < 0 || i >= s.len() {
        s.len() as int
    } else if s[i].decompressed_accumulator_offset > offset {
        i
    } else {
        partition_point(s, offset, i + 1)
    }
}

/// The block that the tree answers for `offset`: the last one starting at or
/// before it, if it holds `offset`.
pub open spec fn spec_query(s: Seq<RecordBlockInfo>, offset: u64) -> Option<RecordBlockInfo> {
    let p = partition_point(s, offset, 0);
    if p > 0 && block_contains(s[p - 1], offset) {
        Some(s[p - 1])
    } else {
        None
    }
}

impl RecordBlockInfo {
    /// The end of the decompressed range, unless it overflows.
    pub fn decompressed_end(&self) -> (r: Result<u64>)
        ensures
            r is Ok <==> block_end(*self) <= u64::MAX,
            r matches Ok(e) ==> e == block_end(*self),
            r matches Err(e) ==> e@ is InvalidFormat,
    {
        if self.decompressed_size > u64::MAX - self.decompressed_accumulator_offset {
            return Err(format_error("record block range overflow"));
        }
        Ok(self.decompressed_accumulator_offset + self.decompressed_size)
    }

    fn contains(&self, offset: u64) -> (r: Result<bool>)
        ensures
            r is Ok <==> block_end(*self) <= u64::MAX,
            r matches Ok(b) ==> b == block_contains(*self, offset),
    {
        let end = self.decompressed_end()?;
        Ok(self.decompressed_accumulator_offset <= offset && offset < end)
    }
}

/// Record blocks sorted by the start of their decompressed range, without overlaps.
#[derive(Debug)]
pub struct RecordRangeTree {
    blocks: Vec<RecordBlockInfo>,
}

impl View for RecordRangeTree {
    type V = Seq<RecordBlockInfo>;

    closed spec fn view(&self) -> Seq<RecordBlockInfo> {
        self.blocks@
    }
}

proof fn lemma_block_lt_strict()
    ensures
        is_transitive(block_lt()),
{
}

proof fn lemma_sorted_by_start(s: Seq<RecordBlockInfo>)
    requires
        is_sorted_by(s, block_lt()),
    ensures
        sorted_by_start(s),
{
    assert forall|i: int, j: int| 0 <= i <= j < s.len() implies (#[trigger] s[i]).decompressed_accumulator_offset
        <= (#[trigger] s[j]).decompressed_accumulator_offset by {
        if i < j {
            assert(!(block_lt())(s[j], s[i]));
        }
    }
}

proof fn lemma_partition_point(s: Seq<RecordBlockInfo>, offset: u64, i: int)
    requires
        0 <= i <= s.len(),
        sorted_by_start(s),
        forall|k: int| 0 <= k < i ==> (#[trigger] s[k]).decompressed_accumulator_offset <= offset,
        i == s.len() || s[i].decompressed_accumulator_offset > offset,
    ensures
        partition_point(s, offset, 0) == i,
{
    lemma_partition_point_from(s, offset, 0, i);
}

proof fn lemma_partition_point_from(s: Seq<RecordBlockInfo>, offset: u64, j: int, i: int)
    requires
        0 <= j <= i <= s.len(),
        forall|k: int| 0 <= k < i ==> (#[trigger] s[k]).decompressed_accumulator_offset <= offset,
        i == s.len() || s[i].decompressed_accumulator_offset > offset,
    ensures
        partition_point(s, offset, j) == i,
    decreases i - j,
{
    if j < i {
        lemma_partition_point_from(s, offset, j + 1, i);
    }
}

fn sort_blocks(v: &Vec<RecordBlockInfo>) -> (r: Vec<RecordBlockInfo>)
    ensures
        r@ == stable_sort(v@, block_lt()),
{
    let mut out: Vec<RecordBlockInfo> = Vec::new();
    let mut i: usize = 0;
    assert(v@.take(0) =~= Seq::<RecordBlockInfo>::empty());
    while i < v.len()
        invariant
            i <= v@.len(),
            out@ == stable_sort(v@.take(i as int), block_lt()),
        decreases v@.len() - i,
    {
        let x = v[i];
        let mut j: usize = 0;
        while j < out.len() && !(x.decompressed_accumulator_offset
            < out[j].decompressed_accumulator_offset)
            invariant
                j <= out@.len(),
                insert_pos(out@, x, block_lt(), j as int) == insert_pos(out@, x, block_lt(), 0),
            decreases out@.len() - j,
        {
            j = j + 1;
        }
        proof {
            lemma_stable_sort_step(v@, i as int, block_lt());
            lemma_insert_pos(out@, x, block_lt(), 0);
        }
        let ghost before = out@;
        out.insert(j, x);
        assert(out@ =~= insert_sorted(before, x, block_lt()));
        i = i + 1;
    }
    assert(v@.take(v@.len() as int) =~= v@);
    out
}

impl Clone for RecordRangeTree {
    /// A copy of the tree with the same blocks.
    fn clone(&self) -> (r: Self)
        ensures
            r@ == self@,
    {
        proof {
            use_type_invariant(self);
        }
        let mut blocks: Vec<RecordBlockInfo> = Vec::new();
        let mut i: usize = 0;
        while i < self.blocks.len()
            invariant
                i <= self.blocks@.len(),
                blocks@ == self.blocks@.take(i as int),
            decreases self.blocks@.len() - i,
        {
            blocks.push(self.blocks[i]);
            assert(blocks@ =~= self.blocks@.take(i + 1));
            i = i + 1;
        }
        assert(blocks@ =~= self.blocks@);
        RecordRangeTree { blocks }
    }
}

fn check_no_overlap(s: &Vec<RecordBlockInfo>) -> (r: Result<()>)
    ensures
        r is Ok <==> no_overlap(s@),
        r matches Err(e) ==> e@ is InvalidFormat,
{
    let n = s.len();
    if n == 0 {
        return Ok(());
    }
    let mut i: usize = 0;
    while i < n - 1
        invariant
            n == s@.len(),
            n > 0,
            i <= n - 1,
            forall|k: int|
                0 <= k < i ==> block_end(#[trigger] s@[k]) <= u64::MAX && block_end(s@[k])
                    <= s@[k + 1].decompressed_accumulator_offset,
        decreases n - i,
    {
        let end = s[i].decompressed_end()?;
        if end > s[i + 1].decompressed_accumulator_offset {
            return Err(format_error("overlapping record block ranges"));
        }
        i = i + 1;
    }
    Ok(())
}

impl RecordRangeTree {
    #[verifier::type_invariant]
    spec fn sorted(&self) -> bool {
        sorted_by_start(self.blocks@)
    }

    /// Sorts the blocks by the start of their decompressed range (stably) and
    /// refuses blocks whose ranges overlap.
    pub fn new(blocks: Vec<RecordBlockInfo>) -> (r: Result<Self>)
        ensures
            r is Ok <==> no_overlap(stable_sort(blocks@, block_lt())),
            r matches Ok(t) ==> t@ == stable_sort(blocks@, block_lt()),
            r matches Err(e) ==> e@ is InvalidFormat,
    {
        let sorted = sort_blocks(&blocks);
        proof {
            lemma_block_lt_strict();
            lemma_stable_sort(blocks@, block_lt());
            lemma_sorted_by_start(sorted@);
        }
        check_no_overlap(&sorted)?;
        Ok(RecordRangeTree { blocks: sorted })
    }

    /// The block holding the decompressed `offset`: the last block starting at
    /// or before it, provided its range reaches past `offset`.
    pub fn query(&self, offset: u64) -> (r: Option<&RecordBlockInfo>)
        ensures
            r is Some <==> spec_query(self@, offset) is Some,
            r matches Some(b) ==> spec_query(self@, offset) == Some(*b),
    {
        proof {
            use_type_invariant(self);
        }
        let mut lo: usize = 0;
        let mut hi: usize = self.blocks.len();
        while lo < hi
            invariant
                lo <= hi <= self.blocks@.len(),
                sorted_by_start(self.blocks@),
                forall|k: int|
                    0 <= k < lo ==> (#[trigger] self.blocks@[k]).decompressed_accumulator_offset
                        <= offset,
                forall|k: int|
                    hi <= k < self.blocks@.len() ==> (
                    #[trigger] self.blocks@[k]).decompressed_accumulator_offset > offset,
            decreases hi - lo,
        {
            let mid = lo + (hi - lo) / 2;
            if self.blocks[mid].decompressed_accumulator_offset <= offset {
                lo = mid + 1;
            } else {
                hi = mid;
            }
        }
        proof {
            lemma_partition_point(self.blocks@, offset, lo as int);
        }
        if lo == 0 {
            return None;
        }
        let block = &self.blocks[lo - 1];
        match block.contains(offset) {
            Ok(true) => Some(block),
            _ => None,
        }
    }

    /// The number of blocks.
    pub fn len(&self) -> (r: usize)
        ensures
            r == self@.len(),
    {
        self.blocks.len()
    }

    /// Whether there are no blocks.
    pub fn is_empty(&self) -> (r: bool)
        ensures
            r == (self@.len() == 0),
    {
        self.blocks.len() == 0
    }

    /// The blocks, in order.
    pub fn blocks(&self) -> (r: &[RecordBlockInfo])
        ensures
            r@ == self@,
            sorted_by_start(r@),
    {
        proof {
            use_type_invariant(self);
        }
        self.blocks.as_slice()
    }
}

/// The tree built from some blocks holds exactly those blocks, sorted by start.
pub proof fn lemma_new_keeps_blocks(blocks: Seq<RecordBlockInfo>)
    ensures
        stable_sort(blocks, block_lt()).to_multiset() == blocks.to_multiset(),
        sorted_by_start(stable_sort(blocks, block_lt())),
{
    lemma_block_lt_strict();
    lemma_stable_sort(blocks, block_lt());
    lemma_sorted_by_start(stable_sort(blocks, block_lt()));
}

proof fn lemma_partition_point_props(s: Seq<RecordBlockInfo>, offset: u64, i: int)
    requires
        0 <= i <= s.len(),
    ensures
        i <= partition_point(s, offset, i) <= s.len(),
        forall|k: int|
            i <= k < partition_point(s, offset, i) ==> (#[trigger] s[k]).decompressed_accumulator_offset
                <= offset,
        partition_point(s, offset, i) < s.len() ==> s[partition_point(
            s,
            offset,
            i,
        )].decompressed_accumulator_offset > offset,
    decreases s.len() - i,
{
    if i < s.len() && s[i].decompressed_accumulator_offset <= offset {
        lemma_partition_point_props(s, offset, i + 1);
    }
}

/// In a tree, an offset is answered exactly when some block holds it, and the
/// block answered holds it.
pub proof fn lemma_query_finds_holding_block(s: Seq<RecordBlockInfo>, offset: u64)
    requires
        sorted_by_start(s),
        no_overlap(s),
    ensures
        spec_query(s, offset) is Some <==> exists|i: int| 0 <= i < s.len() && block_contains(#[trigger] s[i], offset),
        spec_query(s, offset) matches Some(b) ==> block_contains(b, offset),
{
    let p = partition_point(s, offset, 0);
    lemma_partition_point_props(s, offset, 0);
    if spec_query(s, offset) is Some {
        assert(block_contains(s[p - 1], offset));
    }
    assert forall|i: int| 0 <= i < s.len() && block_contains(#[trigger] s[i], offset) implies spec_query(s, offset) is Some by {
        if i >= p {
            assert(s[p].decompressed_accumulator_offset <= s[i].decompressed_accumulator_offset);
        }
        if i < p - 1 {
            assert(block_end(s[i]) <= s[i + 1].decompressed_accumulator_offset);
            assert(s[i + 1].decompressed_accumulator_offset <= s[p - 1].decompressed_accumulator_offset);
            assert(s[p - 1].decompressed_accumulator_offset <= offset);
        }
        assert(i == p - 1);
    }
}

} // verus!
