//! Blocks of a document posting list.
use crate::features::TokenFieldFeatures;
use crate::field::{spec_key_docid, TokenFieldIndex};
use crate::stats::DocId;
use crate::varint::{
    leb128, leb128_all, leb128_read, leb128_read_n, lemma_leb128_all_push,
    lemma_leb128_all_round_trip, lemma_leb128_read_fewer, lemma_leb128_round_trip, read_unsigned,
    write_unsigned,
};
use vstd::prelude::*;

verus! {

/// Maximum number of values in a single doc block.
pub const MAX_PL_BLOCK_SIZE: usize = 256;

/// A run of a posting list: documents, and how often the token occurs in each.
#[derive(Debug, Clone)]
pub struct DocPostingBlock {
    pub docids: Vec<u64>,
    pub term_frequencies: Vec<u32>,
}

/// [`DocPostingBlock`] by its contents.
#[verifier::ext_equal]
pub struct BlockView {
    pub docids: Seq<u64>,
    pub term_frequencies: Seq<u32>,
}

impl View for DocPostingBlock {
    type V = BlockView;

    open spec fn view(&self) -> BlockView {
        BlockView { docids: self.docids@, term_frequencies: self.term_frequencies@ }
    }
}

/// No document comes before an earlier one.
pub open spec fn ascending(docids: Seq<u64>) -> bool {
    forall|i: int, j: int| 0 <= i <= j < docids.len() ==> docids[i] <= docids[j]
}

/// Tests whether no document comes before an earlier one.
pub fn is_ascending(docids: &[u64]) -> (r: bool)
    ensures
        r == ascending(docids@),
{
    let mut i: usize = 1;
    while i < docids.len()
        invariant
            1 <= i,
            i <= docids@.len() || docids@.len() == 0,
            forall|a: int, b: int| 0 <= a <= b < i && b < docids@.len() ==> docids@[a] <= docids@[b],
        decreases docids@.len() - i,
    {
        if docids[i] < docids[i - 1] {
            return false;
        }
        i = i + 1;
    }
    true
}

/// The steps from each document to the next.
pub open spec fn deltas(docids: Seq<u64>) -> Seq<u64> {
    Seq::new((docids.len() - 1) as nat, |i: int| (docids[i + 1] - docids[i]) as u64)
}

/// The documents reached from `first` by `steps`.
pub open spec fn running_sums(first: nat, steps: Seq<u64>) -> Seq<nat>
    decreases steps.len(),
{
    if steps.len() == 0 {
        seq![first]
    } else {
        let sums = running_sums(first, steps.drop_last());
        sums.push(sums.last() + steps.last() as nat)
    }
}

/// Term frequencies as the numbers that are written.
pub open spec fn widened(term_frequencies: Seq<u32>) -> Seq<u64> {
    term_frequencies.map_values(|f: u32| f as u64)
}

/// The low 32 bits of each number.
pub open spec fn narrowed(numbers: Seq<u64>) -> Seq<u32> {
    numbers.map_values(|v: u64| v as u32)
}

impl BlockView {
    /// The bytes of the block: the number of documents, the steps between them, and, in a field
    /// that records them, the term frequencies. The first document is left to the key.
    pub open spec fn spec_encode(self, features: TokenFieldFeatures) -> Seq<u8> {
        leb128(self.docids.len()) + leb128_all(deltas(self.docids)) + (if features is Doc {
            seq![]
        } else {
            leb128_all(widened(self.term_frequencies))
        })
    }

    /// The block that a key (for the first document) and a value make. There is none if either
    /// is too short, a number is malformed, or a document would not fit in 64 bits. The first
    /// document is there even if the count says zero.
    #[verifier::opaque]
    pub open spec fn spec_decode(
        key: Seq<u8>,
        value: Seq<u8>,
        features: TokenFieldFeatures,
    ) -> Option<BlockView> {
        match (spec_key_docid(key), leb128_read(value)) {
            (Some(first), Some((count, rest))) => {
                let n = count as usize as nat;
                match leb128_read_n(rest, if n == 0 { 0 } else { (n - 1) as nat }) {
                    Some((steps, rest)) => {
                        let sums = running_sums(first as nat, steps);
                        let docids = sums.map_values(|d: nat| d as u64);
                        if sums.last() > u64::MAX {
                            None
                        } else if features is Doc {
                            Some(BlockView { docids, term_frequencies: Seq::new(n, |i: int| 1u32) })
                        } else {
                            match leb128_read_n(rest, n) {
                                Some((freqs, _)) => Some(
                                    BlockView { docids, term_frequencies: narrowed(freqs) },
                                ),
                                None => None,
                            }
                        }
                    },
                    None => None,
                }
            },
            _ => None,
        }
    }

    /// This block followed by another.
    pub open spec fn plus(self, other: BlockView) -> BlockView {
        BlockView {
            docids: self.docids + other.docids,
            term_frequencies: self.term_frequencies + other.term_frequencies,
        }
    }

    /// The first `n` documents of the block.
    pub open spec fn take(self, n: int) -> BlockView {
        BlockView {
            docids: self.docids.take(n),
            term_frequencies: self.term_frequencies.take(n),
        }
    }

    /// All but the first `n` documents of the block.
    pub open spec fn skip(self, n: int) -> BlockView {
        BlockView {
            docids: self.docids.skip(n),
            term_frequencies: self.term_frequencies.skip(n),
        }
    }

    /// The block can be written in a field with these features and read back: there is a
    /// document, documents ascend, and each has a term frequency (one, where none are recorded).
    pub open spec fn storable(self, features: TokenFieldFeatures) -> bool {
        &&& 1 <= self.docids.len() <= usize::MAX
        &&& ascending(self.docids)
        &&& self.term_frequencies.len() == self.docids.len()
        &&& features is Doc ==> forall|i: int|
            0 <= i < self.term_frequencies.len() ==> self.term_frequencies[i] == 1
    }
}

proof fn lemma_sums_prefix(first: nat, steps: Seq<u64>, n: int)
    requires
        0 <= n <= steps.len(),
    ensures
        running_sums(first, steps).len() == steps.len() + 1,
        running_sums(first, steps.take(n)) == running_sums(first, steps).take(n + 1),
        running_sums(first, steps).last() >= running_sums(first, steps.take(n)).last(),
    decreases steps.len(),
{
    if n == steps.len() {
        assert(steps.take(n) =~= steps);
        if steps.len() > 0 {
            lemma_sums_prefix(first, steps.drop_last(), n - 1);
        }
        assert(running_sums(first, steps).take(n + 1) =~= running_sums(first, steps));
    } else {
        lemma_sums_prefix(first, steps.drop_last(), n);
        assert(steps.drop_last().take(n) =~= steps.take(n));
        assert(running_sums(first, steps.drop_last()).take(n + 1) =~= running_sums(
            first,
            steps,
        ).take(n + 1));
    }
}

/// Summing up the steps between ascending documents gives the documents.
pub proof fn lemma_sums_of_deltas(docids: Seq<u64>)
    requires
        docids.len() >= 1,
        ascending(docids),
    ensures
        running_sums(docids[0] as nat, deltas(docids)) == docids.map_values(|d: u64| d as nat),
    decreases docids.len(),
{
    let goal = docids.map_values(|d: u64| d as nat);
    if docids.len() == 1 {
        assert(deltas(docids) =~= seq![]);
        assert(goal =~= seq![docids[0] as nat]);
    } else {
        let front = docids.drop_last();
        lemma_sums_of_deltas(front);
        assert(deltas(docids).drop_last() =~= deltas(front));
        assert(docids[docids.len() - 2] <= docids.last());
        assert(goal =~= front.map_values(|d: u64| d as nat).push(docids.last() as nat));
    }
}

/// The sums of a decoded block ascend.
pub proof fn lemma_sums_ascend(first: nat, steps: Seq<u64>)
    ensures
        running_sums(first, steps).len() == steps.len() + 1,
        running_sums(first, steps)[0] == first,
        forall|i: int, j: int|
            0 <= i <= j <= steps.len() ==> running_sums(first, steps)[i] <= running_sums(
                first,
                steps,
            )[j],
    decreases steps.len(),
{
    if steps.len() > 0 {
        lemma_sums_ascend(first, steps.drop_last());
    }
}

impl DocPostingBlock {
    pub fn first_docid(&self) -> (r: Option<DocId>)
        ensures
            r == (if self@.docids.len() > 0 {
                Some(self@.docids[0])
            } else {
                None
            }),
    {
        if self.docids.len() > 0 {
            Some(self.docids[0])
        } else {
            None
        }
    }

    /// Returns the number of documents in the block.
    pub fn len(&self) -> (r: usize)
        ensures
            r == self@.docids.len(),
    {
        self.docids.len()
    }

    /// Returns true if there are no documents in the block.
    pub fn is_empty(&self) -> (r: bool)
        ensures
            r == (self@.docids.len() == 0),
    {
        self.docids.len() == 0
    }

    /// Decode a block from the key (contains first docid) and value.
    pub fn decode(key: &[u8], value: &[u8], features: TokenFieldFeatures) -> (r: Option<Self>)
        ensures
            match r {
                Some(b) => BlockView::spec_decode(key@, value@, features) == Some(b@),
                None => BlockView::spec_decode(key@, value@, features) is None,
            },
    {
        proof {
            reveal(BlockView::spec_decode);
        }
        let first_docid: u64 = match TokenFieldIndex::pl_key_extract_docid(key) {
            Some(d) => d,
            None => return None,
        };
        let (count, after_count) = match read_unsigned(value) {
            Some(p) => p,
            None => return None,
        };
        #[verifier::truncate]
        let n: usize = count as usize;
        let (docids, after_docids) = match read_docids(first_docid, n, after_count) {
            Some(p) => p,
            None => return None,
        };
        let term_frequencies = if features.has_term_frequency() {
            match read_frequencies(n, after_docids) {
                Some(fs) => fs,
                None => return None,
            }
        } else {
            let mut ones: Vec<u32> = Vec::with_capacity(MAX_PL_BLOCK_SIZE + 1);
            ones.resize(n, 1);
            assert(ones@ =~= Seq::new(n as nat, |i: int| 1u32));
            ones
        };
        Some(DocPostingBlock { docids, term_frequencies })
    }

    /// Load from a single (docid, tf) frequence provided in term stats.
    pub fn from_singleton(docid: DocId, tf: u64) -> (r: Self)
        ensures
            r@ == (BlockView { docids: seq![docid], term_frequencies: seq![tf as u32] }),
    {
        #[verifier::truncate]
        let tf32: u32 = tf as u32;
        let r = DocPostingBlock { docids: vec![docid], term_frequencies: vec![tf32] };
        assert(r@ =~= BlockView { docids: seq![docid], term_frequencies: seq![tf as u32] });
        r
    }

    /// Encode a block. The caller is responsible for recording first_docid() as the starting point
    /// for all of the subsequent deltas.
    pub fn encode(&self, features: TokenFieldFeatures) -> (value: Vec<u8>)
        requires
            self@.docids.len() > 0,
            ascending(self@.docids),
        ensures
            value@ == self@.spec_encode(features),
    {
        let mut value: Vec<u8> = Vec::new();
        write_unsigned(&mut value, self.docids.len() as u64);
        let ghost head = leb128(self.docids@.len());
        assert(value@ =~= head);
        let mut i: usize = 1;
        assert(deltas(self.docids@).take(0) =~= seq![]);
        while i < self.docids.len()
            invariant
                1 <= i <= self.docids@.len(),
                ascending(self.docids@),
                value@ == head + leb128_all(deltas(self.docids@).take(i - 1)),
            decreases self.docids@.len() - i,
        {
            let step: u64 = self.docids[i] - self.docids[i - 1];
            let ghost before = deltas(self.docids@).take(i - 1);
            write_unsigned(&mut value, step);
            i = i + 1;
            proof {
                lemma_leb128_all_push(before, step);
                assert(deltas(self.docids@).take(i - 1) =~= before.push(step));
                assert(value@ =~= head + leb128_all(deltas(self.docids@).take(i - 1)));
            }
        }
        assert(deltas(self.docids@).take(i - 1) =~= deltas(self.docids@));
        if features.has_term_frequency() {
            let ghost body = value@;
            let ghost all = widened(self.term_frequencies@);
            let mut j: usize = 0;
            assert(all.take(0) =~= seq![]);
            assert(value@ =~= body + leb128_all(all.take(0)));
            while j < self.term_frequencies.len()
                invariant
                    j <= self.term_frequencies@.len(),
                    all == widened(self.term_frequencies@),
                    value@ == body + leb128_all(all.take(j as int)),
                decreases self.term_frequencies@.len() - j,
            {
                let f: u64 = self.term_frequencies[j] as u64;
                write_unsigned(&mut value, f);
                proof {
                    lemma_leb128_all_push(all.take(j as int), f);
                    assert(all.take(j + 1) =~= all.take(j as int).push(f));
                    assert(value@ =~= body + leb128_all(all.take(j + 1)));
                }
                j = j + 1;
            }
            assert(all.take(j as int) =~= all);
        } else {
            assert(value@ =~= self@.spec_encode(features));
        }
        value
    }
}

impl Default for DocPostingBlock {
    fn default() -> (r: Self)
        ensures
            r@ == (BlockView { docids: seq![], term_frequencies: seq![] }),
    {
        let r = DocPostingBlock { docids: Vec::new(), term_frequencies: Vec::new() };
        assert(r@ =~= BlockView { docids: seq![], term_frequencies: seq![] });
        r
    }
}

/// Reads the documents of a block that counts `n` of them, the first of which is known.
fn read_docids<'a>(first: u64, n: usize, bytes: &'a [u8]) -> (r: Option<(Vec<u64>, &'a [u8])>)
    ensures
        ({
            let steps = leb128_read_n(bytes@, if n == 0 { 0 } else { (n - 1) as nat });
            let fits = running_sums(first as nat, steps.unwrap().0).last() <= u64::MAX;
            match r {
                Some((docids, rest)) => {
                    &&& steps is Some && fits
                    &&& rest@ == steps.unwrap().1
                    &&& docids@ == running_sums(first as nat, steps.unwrap().0).map_values(
                        |d: nat| d as u64,
                    )
                },
                None => !(steps is Some && fits),
            }
        }),
{
    let mut docids: Vec<u64> = Vec::with_capacity(MAX_PL_BLOCK_SIZE + 1);
    docids.push(first);
    let mut rest: &'a [u8] = bytes;
    let mut last: u64 = first;
    let mut i: usize = 1;
    let ghost mut steps: Seq<u64> = seq![];
    let ghost total: nat = if n == 0 { 0 } else { (n - 1) as nat };
    assert(docids@ =~= running_sums(first as nat, steps).map_values(|d: nat| d as u64));
    while i < n
        invariant
            1 <= i,
            i <= n || n == 0 && i == 1,
            total == (if n == 0 { 0 } else { (n - 1) as nat }),
            leb128_read_n(bytes@, (i - 1) as nat) == Some((steps, rest@)),
            running_sums(first as nat, steps).last() == last,
            docids@ == running_sums(first as nat, steps).map_values(|d: nat| d as u64),
        decreases n - i,
    {
        let (step, after) = match read_unsigned(rest) {
            Some(p) => p,
            None => {
                proof {
                    lemma_leb128_read_fewer(bytes@, i as nat, total);
                }
                return None;
            },
        };
        let ghost longer = steps.push(step);
        assert(longer.drop_last() =~= steps);
        let sum: u64 = match last.checked_add(step) {
            Some(s) => s,
            None => {
                proof {
                    lemma_leb128_read_fewer(bytes@, i as nat, total);
                    if let Some((all, _)) = leb128_read_n(bytes@, total) {
                        lemma_sums_prefix(first as nat, all, i as int);
                    }
                }
                return None;
            },
        };
        docids.push(sum);
        last = sum;
        rest = after;
        i = i + 1;
        proof {
            steps = longer;
            assert(docids@ =~= running_sums(first as nat, steps).map_values(|d: nat| d as u64));
        }
    }
    Some((docids, rest))
}

/// Reads `n` term frequencies.
fn read_frequencies(n: usize, bytes: &[u8]) -> (r: Option<Vec<u32>>)
    ensures
        match r {
            Some(fs) => leb128_read_n(bytes@, n as nat) matches Some((vs, _)) && fs@ == narrowed(
                vs,
            ),
            None => leb128_read_n(bytes@, n as nat) is None,
        },
{
    let mut fs: Vec<u32> = Vec::with_capacity(MAX_PL_BLOCK_SIZE + 1);
    let mut rest: &[u8] = bytes;
    let mut i: usize = 0;
    let ghost mut vs: Seq<u64> = seq![];
    assert(fs@ =~= narrowed(vs));
    while i < n
        invariant
            i <= n,
            leb128_read_n(bytes@, i as nat) == Some((vs, rest@)),
            fs@ == narrowed(vs),
        decreases n - i,
    {
        let (v, after) = match read_unsigned(rest) {
            Some(p) => p,
            None => {
                proof {
                    lemma_leb128_read_fewer(bytes@, (i + 1) as nat, n as nat);
                }
                return None;
            },
        };
        #[verifier::truncate]
        let f: u32 = v as u32;
        fs.push(f);
        rest = after;
        i = i + 1;
        proof {
            vs = vs.push(v);
            assert(fs@ =~= narrowed(vs));
        }
    }
    Some(fs)
}

/// A block that was decoded has a document, and its documents ascend from the one in its key.
pub proof fn lemma_decoded_block(key: Seq<u8>, value: Seq<u8>, features: TokenFieldFeatures)
    ensures
        BlockView::spec_decode(key, value, features) matches Some(b) ==> {
            &&& b.docids.len() >= 1
            &&& spec_key_docid(key) == Some(b.docids[0])
            &&& ascending(b.docids)
        },
{
    reveal(BlockView::spec_decode);
    if let (Some(first), Some((count, rest))) = (spec_key_docid(key), leb128_read(value)) {
        let n = count as usize as nat;
        if let Some((steps, _)) = leb128_read_n(rest, if n == 0 { 0 } else { (n - 1) as nat }) {
            lemma_sums_ascend(first as nat, steps);
        }
    }
}

/// Decoding gives back the block that was encoded, under any key that ends with its first
/// document.
pub proof fn lemma_block_round_trip(block: BlockView, key: Seq<u8>, features: TokenFieldFeatures)
    requires
        block.storable(features),
        spec_key_docid(key) == Some(block.docids[0]),
    ensures
        BlockView::spec_decode(key, block.spec_encode(features), features) == Some(block),
{
    reveal(BlockView::spec_decode);
    let n = block.docids.len();
    let steps = deltas(block.docids);
    let freqs = widened(block.term_frequencies);
    let tail = if features is Doc {
        seq![]
    } else {
        leb128_all(freqs)
    };
    let value = block.spec_encode(features);
    assert(value =~= leb128(n) + (leb128_all(steps) + tail));
    lemma_leb128_round_trip(n as u64, leb128_all(steps) + tail);
    lemma_leb128_all_round_trip(steps, tail);
    lemma_sums_of_deltas(block.docids);
    let sums = running_sums(block.docids[0] as nat, steps);
    assert(sums.map_values(|d: nat| d as u64) =~= block.docids);
    if features is Doc {
        assert(Seq::new(n, |i: int| 1u32) =~= block.term_frequencies);
    } else {
        lemma_leb128_all_round_trip(freqs, seq![]);
        assert(leb128_all(freqs) + seq![] =~= tail);
        assert(narrowed(freqs) =~= block.term_frequencies);
    }
}

} // verus!
