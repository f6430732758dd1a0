//! Chunk index: hash to location(s) mapping.
//!
//! Built fresh per sync attempt by scanning the destination file's existing
//! bytes (empty when the file is absent), then diffed against the target
//! layout.  A hash may map to several offsets: identical regions of the file
//! share one entry (intra-file dedup).

use vstd::prelude::*;

use crate::chunker::ScannedChunk;
use crate::hash::bytes_eq;

verus! {

/// Mathematical model of one index entry: a content hash, the size of the
/// chunk, and every offset the content was seen at, in insertion order.
#[verifier::ext_equal]
pub ghost struct IndexEntryV {
    pub hash: Seq<u8>,
    pub size: int,
    pub offsets: Seq<int>,
}

/// Whether some entry of `idx` carries hash `h`.
pub open spec fn idx_contains(idx: Seq<IndexEntryV>, h: Seq<u8>) -> bool {
    exists|i: int| 0 <= i < idx.len() && idx[i].hash == h
}

/// The position of the entry carrying hash `h`; meaningful under `idx_wf`,
/// where at most one entry carries any hash.
pub open spec fn idx_find(idx: Seq<IndexEntryV>, h: Seq<u8>) -> int {
    choose|i: int| 0 <= i < idx.len() && idx[i].hash == h
}

/// Well-formedness of an index: hashes are pairwise distinct and every entry
/// records at least one offset.
pub open spec fn idx_wf(idx: Seq<IndexEntryV>) -> bool {
    &&& forall|i: int, j: int|
        0 <= i < idx.len() && 0 <= j < idx.len() && i != j ==> idx[i].hash != idx[j].hash
    &&& forall|i: int| 0 <= i < idx.len() ==> #[trigger] idx[i].offsets.len() >= 1
}

/// How an index built from a scan relates to that scan: every scanned span is
/// recorded under its hash, and everything recorded comes from some span.
pub open spec fn scan_index_rel(scan: Seq<ScannedChunk>, idx: Seq<IndexEntryV>) -> bool {
    &&& forall|i: int| 0 <= i < scan.len() ==> idx_contains(idx, #[trigger] scan[i].hash@)
    &&& forall|i: int|
        0 <= i < scan.len() ==> idx[idx_find(idx, #[trigger] scan[i].hash@)].offsets.contains(
            scan[i].offset as int,
        )
    &&& forall|j: int, k: int|
        0 <= j < idx.len() && 0 <= k < idx[j].offsets.len() ==> exists|i: int|
            0 <= i < scan.len() && scan[i].offset as int == #[trigger] idx[j].offsets[k]
                && scan[i].hash@ == idx[j].hash
    &&& forall|j: int|
        0 <= j < idx.len() ==> exists|i: int|
            0 <= i < scan.len() && scan[i].hash@ == #[trigger] idx[j].hash && scan[i].size as int
                == idx[j].size
}

/// One executable index entry.
pub struct ChunkIndexEntry {
    pub hash: Vec<u8>,
    pub size: usize,
    pub offsets: Vec<usize>,
}

impl View for ChunkIndexEntry {
    type V = IndexEntryV;

    open spec fn view(&self) -> IndexEntryV {
        IndexEntryV {
            hash: self.hash@,
            size: self.size as int,
            offsets: self.offsets@.map_values(|o: usize| o as int),
        }
    }
}

/// Index of the chunks found in a file.
pub struct ChunkIndex {
    entries: Vec<ChunkIndexEntry>,
}

impl View for ChunkIndex {
    type V = Seq<IndexEntryV>;

    closed spec fn view(&self) -> Seq<IndexEntryV> {
        self.entries@.map_values(|e: ChunkIndexEntry| e@)
    }
}

impl ChunkIndex {
    /// Well-formedness of the index.
    pub open spec fn wf(&self) -> bool {
        idx_wf(self@)
    }

    /// An index with no entries.
    pub fn new_empty() -> (r: ChunkIndex)
        ensures
            r@ == Seq::<IndexEntryV>::empty(),
            r.wf(),
    {
        let r = ChunkIndex { entries: Vec::new() };
        proof {
            assert(r@ =~= Seq::<IndexEntryV>::empty());
        }
        r
    }

    /// Number of distinct hashes recorded.
    pub fn len(&self) -> (r: usize)
        ensures
            r == self@.len(),
    {
        self.entries.len()
    }

    /// Record that content with the given hash and size sits at `offset`.
    /// A new hash opens an entry; a known hash only gains the offset (the
    /// size recorded first is kept).
    pub fn add_chunk(&mut self, hash: Vec<u8>, size: usize, offset: usize)
        requires
            idx_wf(old(self)@),
        ensures
            idx_wf(final(self)@),
            idx_contains(old(self)@, hash@) ==> {
                let j = idx_find(old(self)@, hash@);
                final(self)@ =~= old(self)@.update(
                    j,
                    IndexEntryV {
                        hash: old(self)@[j].hash,
                        size: old(self)@[j].size,
                        offsets: old(self)@[j].offsets.push(offset as int),
                    },
                )
            },
            !idx_contains(old(self)@, hash@) ==> final(self)@ =~= old(self)@.push(
                IndexEntryV { hash: hash@, size: size as int, offsets: seq![offset as int] },
            ),
    {
        let n = self.entries.len();
        let mut i: usize = 0;
        while i < n
            invariant
                n == self.entries.len(),
                i <= n,
                self@ == old(self)@,
                idx_wf(self@),
                forall|k: int| 0 <= k < i ==> #[trigger] self@[k].hash != hash@,
            decreases n - i,
        {
            if bytes_eq(&self.entries[i].hash, &hash) {
                let ghost pre = old(self)@;
                let ghost j = i as int;
                proof {
                    assert(self@[j].hash == hash@);
                    assert(idx_contains(pre, hash@));
                    let f = idx_find(pre, hash@);
                    assert(0 <= f < pre.len() && pre[f].hash == hash@);
                    assert(f == j);
                }
                let entry = &mut self.entries[i];
                entry.offsets.push(offset);
                proof {
                    let updated = IndexEntryV {
                        hash: pre[j].hash,
                        size: pre[j].size,
                        offsets: pre[j].offsets.push(offset as int),
                    };
                    assert(self.entries@[j]@.offsets
                        =~= pre[j].offsets.push(offset as int));
                    assert(self.entries@[j]@ =~~= updated);
                    assert(self@ =~~= pre.update(j, updated));
                    assert(idx_wf(self@));
                }
                return ;
            }
            i = i + 1;
        }
        let ghost pre = self@;
        proof {
            assert(pre == old(self)@);
            assert(!idx_contains(self@, hash@));
        }
        let ghost h = hash@;
        self.entries.push(ChunkIndexEntry { hash, size, offsets: vec![offset] });
        proof {
            let added = IndexEntryV { hash: h, size: size as int, offsets: seq![offset as int] };
            assert(self.entries@[pre.len() as int]@.offsets =~= seq![offset as int]);
            assert(self.entries@[pre.len() as int]@ =~~= added);
            assert(self@ =~~= pre.push(added));
            assert(idx_wf(self@));
        }
    }

    /// Size and first recorded offset of the entry carrying `hash`, if any.
    pub fn lookup(&self, hash: &Vec<u8>) -> (r: Option<(usize, usize)>)
        requires
            self.wf(),
        ensures
            match r {
                Option::Some(p) => {
                    &&& idx_contains(self@, hash@)
                    &&& p.0 as int == self@[idx_find(self@, hash@)].size
                    &&& p.1 as int == self@[idx_find(self@, hash@)].offsets[0]
                },
                Option::None => !idx_contains(self@, hash@),
            },
    {
        let n = self.entries.len();
        let mut i: usize = 0;
        while i < n
            invariant
                n == self.entries.len(),
                i <= n,
                self.wf(),
                forall|k: int| 0 <= k < i ==> #[trigger] self@[k].hash != hash@,
            decreases n - i,
        {
            if bytes_eq(&self.entries[i].hash, &hash) {
                proof {
                    assert(self@[i as int].hash == hash@);
                    assert(idx_contains(self@, hash@));
                    let j = idx_find(self@, hash@);
                    assert(0 <= j < self@.len() && self@[j].hash == hash@);
                    assert(j == i as int);
                    assert(self@[i as int].offsets.len() >= 1);
                }
                let entry = &self.entries[i];
                return Option::Some((entry.size, entry.offsets[0]));
            }
            i = i + 1;
        }
        proof {
            assert(!idx_contains(self@, hash@));
        }
        Option::None
    }

    /// Whether the index records `hash` at exactly the offset `offset`
    /// (among possibly others).
    pub fn records_at(&self, hash: &Vec<u8>, offset: usize) -> (r: bool)
        requires
            self.wf(),
        ensures
            r == (idx_contains(self@, hash@) && self@[idx_find(self@, hash@)].offsets.contains(
                offset as int,
            )),
    {
        let n = self.entries.len();
        let mut i: usize = 0;
        while i < n
            invariant
                n == self.entries.len(),
                i <= n,
                self.wf(),
                forall|k: int| 0 <= k < i ==> #[trigger] self@[k].hash != hash@,
            decreases n - i,
        {
            if bytes_eq(&self.entries[i].hash, &hash) {
                proof {
                    assert(self@[i as int].hash == hash@);
                    assert(idx_contains(self@, hash@));
                    let j = idx_find(self@, hash@);
                    assert(0 <= j < self@.len() && self@[j].hash == hash@);
                    assert(j == i as int);
                }
                let entry = &self.entries[i];
                proof {
                    assert(self@[i as int] == entry@);
                    assert(self@[i as int].offsets.len() == entry.offsets@.len());
                }
                let m = entry.offsets.len();
                let mut k: usize = 0;
                while k < m
                    invariant
                        m == entry.offsets.len(),
                        k <= m,
                        self.wf(),
                        0 <= i < self@.len(),
                        self@[i as int] == entry@,
                        self@[i as int].hash == hash@,
                        idx_contains(self@, hash@),
                        idx_find(self@, hash@) == i as int,
                        forall|t: int| 0 <= t < k ==> #[trigger] entry.offsets@[t] != offset,
                    decreases m - k,
                {
                    if entry.offsets[k] == offset {
                        proof {
                            assert(entry@.offsets[k as int] == offset as int);
                            assert(self@[i as int].offsets[k as int] == offset as int);
                        }
                        return true;
                    }
                    k = k + 1;
                }
                proof {
                    assert forall|t: int| 0 <= t < self@[i as int].offsets.len()
                        implies #[trigger] self@[i as int].offsets[t] != offset as int by {
                        assert(entry@.offsets[t] == entry.offsets@[t] as int);
                        assert(entry.offsets@[t] != offset);
                    }
                }
                return false;
            }
            i = i + 1;
        }
        proof {
            assert(!idx_contains(self@, hash@));
        }
        false
    }
}

/// Build an index from the spans a scan produced: record every span's offset
/// under its hash.
pub fn build_index(scan: &Vec<ScannedChunk>) -> (r: ChunkIndex)
    ensures
        r.wf(),
        scan_index_rel(scan@, r@),
{
    let n = scan.len();
    let mut r = ChunkIndex::new_empty();
    let mut i: usize = 0;
    while i < n
        invariant
            n == scan.len(),
            i <= n,
            r.wf(),
            scan_index_rel(scan@.take(i as int), r@),
        decreases n - i,
    {
        let c = &scan[i];
        let mut hash_copy: Vec<u8> = Vec::new();
        hash_copy.extend_from_slice(c.hash.as_slice());
        proof {
            assert(hash_copy@ =~= c.hash@);
        }
        let ghost prev = r@;
        r.add_chunk(hash_copy, c.size, c.offset);
        proof {
            lemma_build_step(scan@, prev, r@, i as int);
        }
        i = i + 1;
    }
    proof {
        assert(scan@.take(n as int) =~= scan@);
    }
    r
}

/// After recording span `i` of the scan into an index that already reflects
/// the first `i` spans, the index reflects the first `i + 1` spans.
proof fn lemma_build_step(scan: Seq<ScannedChunk>, prev: Seq<IndexEntryV>, cur: Seq<IndexEntryV>, i: int)
    requires
        0 <= i < scan.len(),
        idx_wf(prev),
        idx_wf(cur),
        scan_index_rel(scan.take(i), prev),
        idx_contains(prev, scan[i].hash@) ==> {
            let j = idx_find(prev, scan[i].hash@);
            cur =~= prev.update(
                j,
                IndexEntryV {
                    hash: prev[j].hash,
                    size: prev[j].size,
                    offsets: prev[j].offsets.push(scan[i].offset as int),
                },
            )
        },
        !idx_contains(prev, scan[i].hash@) ==> cur =~= prev.push(
            IndexEntryV {
                hash: scan[i].hash@,
                size: scan[i].size as int,
                offsets: seq![scan[i].offset as int],
            },
        ),
    ensures
        scan_index_rel(scan.take(i + 1), cur),
{
    let pre = scan.take(i);
    let now = scan.take(i + 1);
    assert(now.len() == i + 1);
    assert(forall|t: int| 0 <= t <= i ==> now[t] == scan[t]);
    assert(forall|t: int| 0 <= t < i ==> pre[t] == scan[t]);
    if idx_contains(prev, scan[i].hash@) {
        let j = idx_find(prev, scan[i].hash@);
        assert(0 <= j < prev.len() && prev[j].hash == scan[i].hash@);
        // hashes other than entry j are untouched; entry j gains one offset
        assert(forall|t: int| 0 <= t < cur.len() ==> #[trigger] cur[t].hash == prev[t].hash);
        assert forall|t: int| 0 <= t < now.len() implies idx_contains(cur, #[trigger] now[t].hash@) by {
            if t < i {
                let jt = idx_find(prev, now[t].hash@);
                assert(0 <= jt < prev.len() && prev[jt].hash == now[t].hash@);
                assert(cur[jt].hash == now[t].hash@);
            } else {
                assert(cur[j].hash == scan[i].hash@);
            }
        }
        assert forall|t: int| 0 <= t < now.len() implies cur[idx_find(cur, #[trigger] now[t].hash@)]
            .offsets.contains(now[t].offset as int) by {
            let jc = idx_find(cur, now[t].hash@);
            assert(0 <= jc < cur.len() && cur[jc].hash == now[t].hash@);
            let jp = idx_find(prev, now[t].hash@);
            if t < i {
                assert(0 <= jp < prev.len() && prev[jp].hash == now[t].hash@);
                assert(prev[jp].offsets.contains(now[t].offset as int));
                assert(cur[jp].hash == now[t].hash@);
                assert(jc == jp);
                if jp == j {
                    let off = now[t].offset as int;
                    let w = choose|w: int| 0 <= w < prev[jp].offsets.len()
                        && prev[jp].offsets[w] == off;
                    assert(cur[jc].offsets[w] == off);
                } else {
                    assert(cur[jp].offsets == prev[jp].offsets);
                }
            } else {
                assert(cur[j].hash == now[t].hash@);
                assert(jc == j);
                assert(cur[j].offsets[cur[j].offsets.len() - 1] == scan[i].offset as int);
            }
        }
        assert forall|jj: int, k: int|
            0 <= jj < cur.len() && 0 <= k < cur[jj].offsets.len() implies exists|t: int|
                0 <= t < now.len() && now[t].offset as int == #[trigger] cur[jj].offsets[k]
                    && now[t].hash@ == cur[jj].hash by {
            if jj == j && k == cur[j].offsets.len() - 1 {
                assert(now[i].offset as int == cur[jj].offsets[k] && now[i].hash@ == cur[jj].hash);
            } else {
                assert(cur[jj].offsets[k] == prev[jj].offsets[k]);
                let t = choose|t: int| 0 <= t < pre.len() && pre[t].offset as int
                    == prev[jj].offsets[k] && pre[t].hash@ == prev[jj].hash;
                assert(now[t].offset as int == cur[jj].offsets[k] && now[t].hash@ == cur[jj].hash);
            }
        }
        assert forall|jj: int| 0 <= jj < cur.len() implies exists|t: int|
            0 <= t < now.len() && now[t].hash@ == #[trigger] cur[jj].hash && now[t].size as int
                == cur[jj].size by {
            let t = choose|t: int| 0 <= t < pre.len() && pre[t].hash@ == prev[jj].hash
                && pre[t].size as int == prev[jj].size;
            assert(now[t].hash@ == cur[jj].hash && now[t].size as int == cur[jj].size);
        }
    } else {
        let j = prev.len() as int;
        assert(cur.len() == prev.len() + 1);
        assert(forall|t: int| 0 <= t < prev.len() ==> #[trigger] cur[t] == prev[t]);
        assert(cur[j].hash == scan[i].hash@);
        assert forall|t: int| 0 <= t < now.len() implies idx_contains(cur, #[trigger] now[t].hash@) by {
            if t < i {
                let jt = idx_find(prev, now[t].hash@);
                assert(0 <= jt < prev.len() && prev[jt].hash == now[t].hash@);
                assert(cur[jt].hash == now[t].hash@);
            } else {
                assert(cur[j].hash == scan[i].hash@);
            }
        }
        assert forall|t: int| 0 <= t < now.len() implies cur[idx_find(cur, #[trigger] now[t].hash@)]
            .offsets.contains(now[t].offset as int) by {
            let jc = idx_find(cur, now[t].hash@);
            assert(0 <= jc < cur.len() && cur[jc].hash == now[t].hash@);
            if t < i {
                let jp = idx_find(prev, now[t].hash@);
                assert(0 <= jp < prev.len() && prev[jp].hash == now[t].hash@);
                assert(prev[jp].offsets.contains(now[t].offset as int));
                assert(cur[jp].hash == now[t].hash@);
                assert(jc == jp);
                assert(cur[jp].offsets == prev[jp].offsets);
            } else {
                assert(jc == j);
                assert(cur[j].offsets[0] == scan[i].offset as int);
            }
        }
        assert forall|jj: int, k: int|
            0 <= jj < cur.len() && 0 <= k < cur[jj].offsets.len() implies exists|t: int|
                0 <= t < now.len() && now[t].offset as int == #[trigger] cur[jj].offsets[k]
                    && now[t].hash@ == cur[jj].hash by {
            if jj == j {
                assert(now[i].offset as int == cur[jj].offsets[k] && now[i].hash@ == cur[jj].hash);
            } else {
                let t = choose|t: int| 0 <= t < pre.len() && pre[t].offset as int
                    == prev[jj].offsets[k] && pre[t].hash@ == prev[jj].hash;
                assert(now[t].offset as int == cur[jj].offsets[k] && now[t].hash@ == cur[jj].hash);
            }
        }
        assert forall|jj: int| 0 <= jj < cur.len() implies exists|t: int|
            0 <= t < now.len() && now[t].hash@ == #[trigger] cur[jj].hash && now[t].size as int
                == cur[jj].size by {
            if jj == j {
                assert(now[i].hash@ == cur[jj].hash && now[i].size as int == cur[jj].size);
            } else {
                let t = choose|t: int| 0 <= t < pre.len() && pre[t].hash@ == prev[jj].hash
                    && pre[t].size as int == prev[jj].size;
                assert(now[t].hash@ == cur[jj].hash && now[t].size as int == cur[jj].size);
            }
        }
    }
}

/// Intra-file dedup: two spans of a scan with the same content hash land in
/// the one entry that carries the hash, which records both their offsets.
pub proof fn lemma_dedup_shared_entry(scan: Seq<ScannedChunk>, idx: Seq<IndexEntryV>, i: int, j: int)
    requires
        idx_wf(idx),
        scan_index_rel(scan, idx),
        0 <= i < scan.len(),
        0 <= j < scan.len(),
        scan[i].hash@ == scan[j].hash@,
    ensures
        idx_find(idx, scan[i].hash@) == idx_find(idx, scan[j].hash@),
        idx[idx_find(idx, scan[i].hash@)].offsets.contains(scan[i].offset as int),
        idx[idx_find(idx, scan[i].hash@)].offsets.contains(scan[j].offset as int),
{
}

} // verus!
